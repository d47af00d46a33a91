//! Persistence for the model: a human-readable text format holding
//! exactly `{detectors, radius, maximums, minimums}` — the spatial index
//! is never persisted, it is rebuilt inside `load`. The encoder is exact,
//! and `load` is proved to accept every encoding `save` produces and to
//! hand back the same model state.

use vstd::prelude::*;

use crate::fixed::{norm_ok, Point, MAX_NORM, MAX_RAW};
use crate::index::SpatialIndex;
use crate::model::{Error, Model};

verus! {

/// The byte is an ASCII decimal digit.
pub open spec fn is_digit(b: u8) -> bool {
    48 <= b <= 57
}

/// The decimal digits of `n`, most significant first, no leading zeros.
pub open spec fn dec_digits(n: nat) -> Seq<u8>
    decreases n,
{
    if n < 10 {
        seq![(48 + n) as u8]
    } else {
        dec_digits(n / 10).push((48 + n % 10) as u8)
    }
}

/// The decimal encoding of a signed value: a minus sign, then digits.
pub open spec fn enc_int(v: int) -> Seq<u8> {
    if v < 0 {
        seq![45u8] + dec_digits((-v) as nat)
    } else {
        dec_digits(v as nat)
    }
}

/// `[x,y]`: the encoding of one 2D point.
pub open spec fn enc_pair(x: int, y: int) -> Seq<u8> {
    seq![91u8] + enc_int(x) + seq![44u8] + enc_int(y) + seq![93u8]
}

/// The comma-separated encodings of a detector sequence.
pub open spec fn enc_detectors(s: Seq<Point>) -> Seq<u8>
    decreases s.len(),
{
    if s.len() == 0 {
        Seq::empty()
    } else if s.len() == 1 {
        enc_pair(s[0].x as int, s[0].y as int)
    } else {
        enc_pair(s[0].x as int, s[0].y as int) + seq![44u8] + enc_detectors(s.drop_first())
    }
}

/// `{"detectors":[`
pub open spec fn lit_detectors() -> Seq<u8> {
    seq![123u8, 34u8, 100u8, 101u8, 116u8, 101u8, 99u8, 116u8, 111u8, 114u8, 115u8, 34u8, 58u8, 91u8]
}

/// `],"radius":`
pub open spec fn lit_radius() -> Seq<u8> {
    seq![93u8, 44u8, 34u8, 114u8, 97u8, 100u8, 105u8, 117u8, 115u8, 34u8, 58u8]
}

/// `,"maximums":[`
pub open spec fn lit_maximums() -> Seq<u8> {
    seq![44u8, 34u8, 109u8, 97u8, 120u8, 105u8, 109u8, 117u8, 109u8, 115u8, 34u8, 58u8, 91u8]
}

/// `],"minimums":[`
pub open spec fn lit_minimums() -> Seq<u8> {
    seq![93u8, 44u8, 34u8, 109u8, 105u8, 110u8, 105u8, 109u8, 117u8, 109u8, 115u8, 34u8, 58u8, 91u8]
}

/// `]}`
pub open spec fn lit_end() -> Seq<u8> {
    seq![93u8, 125u8]
}

/// The persisted representation of a model: its detectors, radius and
/// bounds, and nothing else.
pub open spec fn spec_encode(m: Model) -> Seq<u8> {
    lit_detectors() + enc_detectors(m.detectors@) + lit_radius() + enc_int(m.radius as int)
        + lit_maximums() + enc_int(m.maximums.x as int) + seq![44u8] + enc_int(m.maximums.y as int)
        + lit_minimums() + enc_int(m.minimums.x as int) + seq![44u8] + enc_int(m.minimums.y as int)
        + lit_end()
}

/// Append the digits of `n`, exactly `dec_digits(n)`.
fn push_dec(out: &mut Vec<u8>, n: u64)
    ensures
        final(out)@ == old(out)@ + dec_digits(n as nat),
    decreases n,
{
    if n < 10 {
        out.push(48 + (n as u8));
        proof {
            assert(final(out)@ =~= old(out)@ + dec_digits(n as nat));
        }
    } else {
        push_dec(out, n / 10);
        out.push(48 + ((n % 10) as u8));
        proof {
            assert((n / 10) as nat == (n as nat) / 10);
            assert((n % 10) as nat == (n as nat) % 10);
            assert(final(out)@ =~= old(out)@ + dec_digits(n as nat));
        }
    }
}

/// Append the signed decimal encoding of `v`.
fn push_int(out: &mut Vec<u8>, v: i64)
    requires
        v > i64::MIN,
    ensures
        final(out)@ == old(out)@ + enc_int(v as int),
{
    if v < 0 {
        out.push(45);
        push_dec(out, (-v) as u64);
        proof {
            assert(final(out)@ =~= old(out)@ + enc_int(v as int));
        }
    } else {
        push_dec(out, v as u64);
    }
}

/// Append `[x,y]` for one point.
fn push_pair(out: &mut Vec<u8>, p: &Point)
    requires
        p.x > i64::MIN,
        p.y > i64::MIN,
    ensures
        final(out)@ == old(out)@ + enc_pair(p.x as int, p.y as int),
{
    out.push(91);
    push_int(out, p.x);
    out.push(44);
    push_int(out, p.y);
    out.push(93);
    proof {
        assert(final(out)@ =~= old(out)@ + enc_pair(p.x as int, p.y as int));
    }
}

/// Append the comma-separated detector encodings from index `i` on.
fn push_detectors(out: &mut Vec<u8>, dets: &Vec<Point>, i: usize)
    requires
        i <= dets@.len(),
        forall|k: int| 0 <= k < dets@.len() ==> norm_ok(#[trigger] dets@[k]),
    ensures
        final(out)@ == old(out)@ + enc_detectors(dets@.subrange(i as int, dets@.len() as int)),
    decreases dets@.len() - i,
{
    if i < dets.len() {
        push_pair(out, &dets[i]);
        if i + 1 < dets.len() {
            out.push(44);
        }
        push_detectors(out, dets, i + 1);
        proof {
            let rest = dets@.subrange(i as int, dets@.len() as int);
            assert(rest.drop_first() =~= dets@.subrange(i + 1 as int, dets@.len() as int));
            assert(rest[0] == dets@[i as int]);
            if i + 1 < dets@.len() {
                assert(rest.len() >= 2);
                assert(final(out)@ =~= old(out)@ + enc_detectors(rest));
            } else {
                assert(rest.len() == 1);
                assert(enc_detectors(dets@.subrange(i + 1 as int, dets@.len() as int))
                    =~= Seq::<u8>::empty());
                assert(final(out)@ =~= old(out)@ + enc_detectors(rest));
            }
        }
    } else {
        proof {
            assert(dets@.subrange(i as int, dets@.len() as int) =~= Seq::<Point>::empty());
            assert(final(out)@ =~= old(out)@ + enc_detectors(Seq::<Point>::empty()));
        }
    }
}

fn make_lit_detectors() -> (v: Vec<u8>)
    ensures
        v@ == lit_detectors(),
{
    let mut v: Vec<u8> = Vec::new();
    v.push(123);
    v.push(34);
    v.push(100);
    v.push(101);
    v.push(116);
    v.push(101);
    v.push(99);
    v.push(116);
    v.push(111);
    v.push(114);
    v.push(115);
    v.push(34);
    v.push(58);
    v.push(91);
    proof {
        assert(v@ =~= lit_detectors());
    }
    v
}

fn make_lit_radius() -> (v: Vec<u8>)
    ensures
        v@ == lit_radius(),
{
    let mut v: Vec<u8> = Vec::new();
    v.push(93);
    v.push(44);
    v.push(34);
    v.push(114);
    v.push(97);
    v.push(100);
    v.push(105);
    v.push(117);
    v.push(115);
    v.push(34);
    v.push(58);
    proof {
        assert(v@ =~= lit_radius());
    }
    v
}

fn make_lit_maximums() -> (v: Vec<u8>)
    ensures
        v@ == lit_maximums(),
{
    let mut v: Vec<u8> = Vec::new();
    v.push(44);
    v.push(34);
    v.push(109);
    v.push(97);
    v.push(120);
    v.push(105);
    v.push(109);
    v.push(117);
    v.push(109);
    v.push(115);
    v.push(34);
    v.push(58);
    v.push(91);
    proof {
        assert(v@ =~= lit_maximums());
    }
    v
}

fn make_lit_minimums() -> (v: Vec<u8>)
    ensures
        v@ == lit_minimums(),
{
    let mut v: Vec<u8> = Vec::new();
    v.push(93);
    v.push(44);
    v.push(34);
    v.push(109);
    v.push(105);
    v.push(110);
    v.push(105);
    v.push(109);
    v.push(117);
    v.push(109);
    v.push(115);
    v.push(34);
    v.push(58);
    v.push(91);
    proof {
        assert(v@ =~= lit_minimums());
    }
    v
}

fn make_lit_end() -> (v: Vec<u8>)
    ensures
        v@ == lit_end(),
{
    let mut v: Vec<u8> = Vec::new();
    v.push(93);
    v.push(125);
    proof {
        assert(v@ =~= lit_end());
    }
    v
}

/// Append a whole literal.
fn push_all(out: &mut Vec<u8>, lit: &Vec<u8>)
    ensures
        final(out)@ == old(out)@ + lit@,
{
    let mut i: usize = 0;
    while i < lit.len()
        invariant
            i <= lit@.len(),
            out@ == old(out)@ + lit@.subrange(0, i as int),
        decreases lit@.len() - i,
    {
        out.push(lit[i]);
        proof {
            assert(out@ =~= old(out)@ + lit@.subrange(0, i + 1 as int));
        }
        i = i + 1;
    }
    proof {
        assert(lit@.subrange(0, lit@.len() as int) =~= lit@);
    }
}

/// Powers of ten, for digit-count bounds.
pub open spec fn pow10(k: nat) -> nat
    decreases k,
{
    if k == 0 {
        1
    } else {
        10 * pow10((k - 1) as nat)
    }
}

/// First position at or after `pos` holding a non-digit (or the end).
pub open spec fn digit_run_end(s: Seq<u8>, pos: int) -> int
    decreases s.len() - pos,
{
    if pos < s.len() && is_digit(s[pos]) {
        digit_run_end(s, pos + 1)
    } else {
        pos
    }
}

/// The value of a digit string, most significant first.
pub open spec fn fold_digits(s: Seq<u8>) -> int
    decreases s.len(),
{
    if s.len() == 0 {
        0
    } else {
        fold_digits(s.drop_last()) * 10 + (s.last() - 48)
    }
}

/// The parse of a decimal magnitude starting at `start`: its value and
/// the position after it. Rejects an empty digit run and leading zeros.
pub open spec fn spec_parse_mag(s: Seq<u8>, start: int, neg: bool) -> Option<(int, int)> {
    let e = digit_run_end(s, start);
    if e == start {
        None
    } else if e - start > 1 && s[start] == 48 {
        None
    } else {
        let m = fold_digits(s.subrange(start, e));
        Some(((if neg { -m } else { m }), e))
    }
}

/// The parse of a signed decimal number at `pos`.
pub open spec fn spec_parse_int(s: Seq<u8>, pos: int) -> Option<(int, int)> {
    if pos < s.len() && s[pos] == 45 {
        spec_parse_mag(s, pos + 1, true)
    } else {
        spec_parse_mag(s, pos, false)
    }
}

proof fn lemma_digit_run(s: Seq<u8>, pos: int)
    requires
        0 <= pos <= s.len(),
    ensures
        pos <= digit_run_end(s, pos) <= s.len(),
        forall|j: int| pos <= j < digit_run_end(s, pos) ==> is_digit(#[trigger] s[j]),
        digit_run_end(s, pos) == s.len() || !is_digit(s[digit_run_end(s, pos)]),
    decreases s.len() - pos,
{
    if pos < s.len() && is_digit(s[pos]) {
        lemma_digit_run(s, pos + 1);
    }
}

proof fn lemma_digit_run_is(s: Seq<u8>, pos: int, end: int)
    requires
        0 <= pos <= end <= s.len(),
        forall|j: int| pos <= j < end ==> is_digit(#[trigger] s[j]),
        end == s.len() || !is_digit(s[end]),
    ensures
        digit_run_end(s, pos) == end,
    decreases end - pos,
{
    if pos < end {
        lemma_digit_run_is(s, pos + 1, end);
    }
}

/// Digit strings are well-formed and their value is in `[0, pow10(len))`.
proof fn lemma_fold_bounds(s: Seq<u8>)
    requires
        forall|j: int| 0 <= j < s.len() ==> is_digit(#[trigger] s[j]),
    ensures
        0 <= fold_digits(s) < pow10(s.len()),
    decreases s.len(),
{
    if s.len() > 0 {
        lemma_fold_bounds(s.drop_last());
        assert(fold_digits(s.drop_last()) <= pow10((s.len() - 1) as nat) - 1);
        assert(fold_digits(s) <= (pow10((s.len() - 1) as nat) - 1) * 10 + 9) by (nonlinear_arith)
            requires
                fold_digits(s) == fold_digits(s.drop_last()) * 10 + (s.last() - 48),
                fold_digits(s.drop_last()) <= pow10((s.len() - 1) as nat) - 1,
                s.last() - 48 <= 9,
        ;
    }
}

/// A digit string without a leading zero is at least `pow10(len - 1)`.
proof fn lemma_fold_lower(s: Seq<u8>)
    requires
        forall|j: int| 0 <= j < s.len() ==> is_digit(#[trigger] s[j]),
        s.len() >= 1,
        s[0] != 48,
    ensures
        fold_digits(s) >= pow10((s.len() - 1) as nat),
    decreases s.len(),
{
    if s.len() == 1 {
        assert(fold_digits(s) == fold_digits(s.drop_last()) * 10 + (s.last() - 48));
        assert(fold_digits(s.drop_last()) == 0);
    } else {
        lemma_fold_lower(s.drop_last());
        assert(fold_digits(s) >= pow10((s.len() - 2) as nat) * 10) by (nonlinear_arith)
            requires
                fold_digits(s) == fold_digits(s.drop_last()) * 10 + (s.last() - 48),
                fold_digits(s.drop_last()) >= pow10((s.len() - 2) as nat),
                s.last() - 48 >= 0,
        ;
    }
}

proof fn lemma_pow10_monotone(a: nat, b: nat)
    requires
        a <= b,
    ensures
        pow10(a) <= pow10(b),
    decreases b,
{
    if a < b {
        lemma_pow10_monotone(a, (b - 1) as nat);
        assert(pow10(((b - 1) as nat)) <= 10 * pow10((b - 1) as nat)) by (nonlinear_arith)
            requires
                pow10((b - 1) as nat) >= 0,
        ;
    }
}

/// Every byte of `dec_digits(n)` is a digit, and there is at least one.
proof fn lemma_dec_digits_valid(n: nat)
    ensures
        dec_digits(n).len() >= 1,
        forall|j: int| 0 <= j < dec_digits(n).len() ==> is_digit(#[trigger] dec_digits(n)[j]),
    decreases n,
{
    if n >= 10 {
        lemma_dec_digits_valid(n / 10);
    }
}

/// Decoding inverts encoding on every natural number.
proof fn lemma_fold_dec(n: nat)
    ensures
        fold_digits(dec_digits(n)) == n,
    decreases n,
{
    if n < 10 {
        let d = dec_digits(n);
        assert(d == seq![(48 + n) as u8]);
        assert(d.drop_last() =~= Seq::<u8>::empty());
        assert(d.last() == (48 + n) as u8);
        assert(fold_digits(d) == fold_digits(Seq::<u8>::empty()) * 10 + ((48 + n) as u8 - 48));
    } else {
        lemma_fold_dec(n / 10);
        let d = dec_digits(n);
        assert(d == dec_digits(n / 10).push((48 + n % 10) as u8));
        assert(d.drop_last() =~= dec_digits(n / 10));
        assert(d.last() == (48 + n % 10) as u8);
        assert(n % 10 < 10);
        assert(fold_digits(d) == (n / 10) * 10 + n % 10);
        vstd::arithmetic::div_mod::lemma_fundamental_div_mod(n as int, 10);
    }
}

/// A multi-digit encoding never starts with a zero digit.
proof fn lemma_dec_first(n: nat)
    requires
        n >= 10,
    ensures
        dec_digits(n)[0] != 48,
        dec_digits(n).len() >= 2,
    decreases n,
{
    lemma_dec_digits_valid(n / 10);
    assert(dec_digits(n)[0] == dec_digits(n / 10)[0]);
    if n / 10 >= 10 {
        lemma_dec_first(n / 10);
    } else {
        assert(n / 10 >= 1);
        assert(dec_digits(n / 10) == seq![(48 + n / 10) as u8]);
    }
}

/// Parsing a number at the position where one was encoded recovers it,
/// provided the next byte (if any) is not a digit.
proof fn lemma_parse_int_of_enc(s: Seq<u8>, pos: int, v: int)
    requires
        0 <= pos,
        pos + enc_int(v).len() <= s.len(),
        s.subrange(pos, pos + enc_int(v).len()) == enc_int(v),
        pos + enc_int(v).len() == s.len() || !is_digit(s[pos + enc_int(v).len()]),
    ensures
        spec_parse_int(s, pos) == Some((v, pos + enc_int(v).len())),
{
    if v < 0 {
        let m = (-v) as nat;
        let d = dec_digits(m);
        lemma_dec_digits_valid(m);
        assert(s[pos] == enc_int(v)[0]);
        assert(s[pos] == 45);
        let start = pos + 1;
        assert forall|j: int| start <= j < start + d.len() implies is_digit(#[trigger] s[j]) by {
            assert(s[j] == enc_int(v)[j - pos]);
            assert(enc_int(v)[j - pos] == d[j - start]);
        }
        lemma_digit_run_is(s, start, start + d.len());
        assert forall|j: int| 0 <= j < d.len() implies s.subrange(start, start + d.len())[j] == d[j]
            by {
            assert(s[start + j] == s.subrange(pos, pos + enc_int(v).len())[j + 1]);
        }
        assert(s.subrange(start, start + d.len()) =~= d);
        lemma_fold_dec(m);
        if d.len() > 1 {
            lemma_dec_first(m);
            assert(s[start] == d[0]);
        }
        assert(spec_parse_mag(s, start, true) == Some((v, start + d.len())));
    } else {
        let m = v as nat;
        let d = dec_digits(m);
        lemma_dec_digits_valid(m);
        assert(s[pos] == enc_int(v)[0]);
        assert(s[pos] == d[0]);
        assert(s[pos] != 45);
        assert forall|j: int| pos <= j < pos + d.len() implies is_digit(#[trigger] s[j]) by {
            assert(s[j] == enc_int(v)[j - pos]);
        }
        lemma_digit_run_is(s, pos, pos + d.len());
        assert(s.subrange(pos, pos + d.len()) =~= d);
        lemma_fold_dec(m);
        if d.len() > 1 {
            assert(m >= 10) by {
                if m < 10 {
                    assert(d.len() == 1);
                }
            }
            lemma_dec_first(m);
            assert(s[pos] == d[0]);
        }
        assert(spec_parse_mag(s, pos, false) == Some((v, pos + d.len())));
    }
}

/// Parse a signed decimal number. Mirrors `spec_parse_int` exactly, and
/// accepts every parse whose value fits the normalized-coordinate range.
fn parse_int(s: &Vec<u8>, pos: usize) -> (r: Option<(i64, usize)>)
    requires
        pos <= s@.len(),
    ensures
        r matches Some(ve) ==> spec_parse_int(s@, pos as int) == Some((ve.0 as int, ve.1 as int))
            && pos < ve.1 <= s@.len(),
        (spec_parse_int(s@, pos as int) matches Some(ve) && -(MAX_NORM as int) <= ve.0 <= MAX_NORM
            as int) ==> r is Some,
{
    let len = s.len();
    let neg: bool = pos < len && s[pos] == 45;
    let start: usize = if neg {
        pos + 1
    } else {
        pos
    };
    proof {
        lemma_digit_run(s@, start as int);
    }
    if start >= len {
        return None;
    }
    let b0 = s[start];
    if !(48 <= b0 && b0 <= 57) {
        return None;
    }
    if b0 == 48 && start + 1 < len && 48 <= s[start + 1] && s[start + 1] <= 57 {
        return None;
    }
    let ghost e = digit_run_end(s@, start as int);
    let mut i: usize = start;
    let mut acc: u128 = 0;
    proof {
        assert(s@.subrange(start as int, start as int) =~= Seq::<u8>::empty());
        vstd::arithmetic::div_mod::lemma_fundamental_div_mod(21, 1);
    }
    while i < len && 48 <= s[i] && s[i] <= 57
        invariant
            pos <= start <= i <= len,
            len == s@.len(),
            e == digit_run_end(s@, start as int),
            start <= e <= len,
            forall|j: int| start <= j < e ==> is_digit(#[trigger] s@[j]),
            e == len || !is_digit(s@[e]),
            i <= e,
            i - start <= 21,
            forall|j: int| start <= j < i ==> is_digit(#[trigger] s@[j]),
            acc == fold_digits(s@.subrange(start as int, i as int)),
            0 <= acc < pow10((i - start) as nat),
            s@[start as int] == b0,
            is_digit(b0),
            b0 == 48 ==> e == start + 1,
            neg == (pos < len && s@[pos as int] == 45),
            neg ==> start == pos + 1,
            !neg ==> start == pos,
        decreases len - i,
    {
        if i - start == 21 {
            proof {
                assert(e >= i);
                assert(b0 != 48);
                let run = s@.subrange(start as int, e);
                lemma_fold_lower(run);
                lemma_pow10_monotone(19, (run.len() - 1) as nat);
                assert(pow10(19) == 10000000000000000000) by {
                    reveal_with_fuel(pow10, 20);
                }
                assert(fold_digits(run) > MAX_NORM as int);
                assert(spec_parse_mag(s@, start as int, neg) matches Some(ve) ==> (ve.0 > MAX_NORM
                    as int || ve.0 < -(MAX_NORM as int)));
            }
            return None;
        }
        let d = s[i];
        proof {
            let pre = s@.subrange(start as int, i as int);
            let cur = s@.subrange(start as int, i + 1 as int);
            assert(cur.drop_last() =~= pre);
            assert(cur.last() == s@[i as int]);
            assert(pow10(((i + 1 - start) as nat)) == 10 * pow10((i - start) as nat));
            assert(acc * 10 + (d - 48) < pow10(((i + 1 - start) as nat))) by (nonlinear_arith)
                requires
                    0 <= acc < pow10((i - start) as nat),
                    0 <= d - 48 <= 9,
                    pow10(((i + 1 - start) as nat)) == 10 * pow10((i - start) as nat),
            ;
            assert(pow10(22) == 10000000000000000000000) by {
                reveal_with_fuel(pow10, 23);
            }
            lemma_pow10_monotone((i + 1 - start) as nat, 22);
            assert(i < e) by {
                if i >= e {
                    assert(i == e);
                    assert(!is_digit(s@[e]));
                }
            }
        }
        acc = acc * 10 + ((d - 48) as u128);
        i = i + 1;
    }
    proof {
        assert(i == e) by {
            if i < e {
                assert(is_digit(s@[i as int]));
            }
        }
    }
    if acc > (i64::MAX as u128) {
        proof {
            assert(spec_parse_mag(s@, start as int, neg) matches Some(ve) ==> (ve.0 > MAX_NORM
                as int || ve.0 < -(MAX_NORM as int)));
        }
        return None;
    }
    let v: i64 = if neg {
        -(acc as i64)
    } else {
        acc as i64
    };
    proof {
        assert(e > start);
        if e - start > 1 {
            assert(s@[start as int] != 48);
        }
        assert(spec_parse_mag(s@, start as int, neg) == Some((v as int, e)));
    }
    Some((v, i))
}

/// The parse of one `[x,y]` pair at `pos`.
pub open spec fn spec_parse_pair(s: Seq<u8>, pos: int) -> Option<((int, int), int)> {
    if pos < s.len() && s[pos] == 91 {
        match spec_parse_int(s, pos + 1) {
            Some((x, e1)) => if e1 < s.len() && s[e1] == 44 {
                match spec_parse_int(s, e1 + 1) {
                    Some((y, e2)) => if e2 < s.len() && s[e2] == 93 {
                        Some(((x, y), e2 + 1))
                    } else {
                        None
                    },
                    None => None,
                }
            } else {
                None
            },
            None => None,
        }
    } else {
        None
    }
}

/// The parse of one or more comma-separated pairs at `pos`.
pub open spec fn spec_parse_pairs(s: Seq<u8>, pos: int) -> Option<(Seq<(int, int)>, int)>
    decreases s.len() - pos,
{
    match spec_parse_pair(s, pos) {
        Some((p, e)) => if !(pos < e <= s.len()) {
            None
        } else if e < s.len() && s[e] == 44 {
            match spec_parse_pairs(s, e + 1) {
                Some((rest, e2)) => Some((seq![p] + rest, e2)),
                None => None,
            }
        } else {
            Some((seq![p], e))
        },
        None => None,
    }
}

/// A literal matched at `pos`: the position after it.
pub open spec fn spec_expect(s: Seq<u8>, pos: int, lit: Seq<u8>) -> Option<int> {
    if 0 <= pos && pos + lit.len() <= s.len() && s.subrange(pos, pos + lit.len()) == lit {
        Some(pos + lit.len())
    } else {
        None
    }
}

/// Every parsed coordinate lies in the normalized-coordinate range.
pub open spec fn pairs_ok(q: Seq<(int, int)>) -> bool {
    forall|k: int|
        0 <= k < q.len() ==> -(MAX_NORM as int) <= #[trigger] q[k].0 <= MAX_NORM as int && -(
        MAX_NORM as int) <= q[k].1 <= MAX_NORM as int
}

/// The coordinate pairs of a detector sequence, as mathematical integers.
pub open spec fn pairs_of(s: Seq<Point>) -> Seq<(int, int)> {
    s.map_values(|p: Point| (p.x as int, p.y as int))
}

/// Parse one `[x,y]` pair. Mirrors `spec_parse_pair`, and accepts every
/// parse whose coordinates fit the normalized range.
fn parse_pair(s: &Vec<u8>, pos: usize) -> (r: Option<(Point, usize)>)
    requires
        pos <= s@.len(),
    ensures
        r matches Some(pe) ==> spec_parse_pair(s@, pos as int) == Some(
            ((pe.0.x as int, pe.0.y as int), pe.1 as int),
        ) && pos < pe.1 <= s@.len(),
        (spec_parse_pair(s@, pos as int) matches Some(pe) && -(MAX_NORM as int) <= pe.0.0
            <= MAX_NORM as int && -(MAX_NORM as int) <= pe.0.1 <= MAX_NORM as int) ==> r is Some,
{
    if !(pos < s.len() && s[pos] == 91) {
        return None;
    }
    match parse_int(s, pos + 1) {
        None => None,
        Some((x, e1)) => {
            if !(e1 < s.len() && s[e1] == 44) {
                return None;
            }
            match parse_int(s, e1 + 1) {
                None => None,
                Some((y, e2)) => {
                    if e2 < s.len() && s[e2] == 93 {
                        Some((Point { x, y }, e2 + 1))
                    } else {
                        None
                    }
                },
            }
        },
    }
}

/// Parse one or more comma-separated pairs. Mirrors `spec_parse_pairs`,
/// and accepts every parse whose coordinates fit the normalized range.
fn parse_pairs(s: &Vec<u8>, pos: usize) -> (r: Option<(Vec<Point>, usize)>)
    requires
        pos <= s@.len(),
    ensures
        r matches Some(ve) ==> (spec_parse_pairs(s@, pos as int) matches Some(se) && se.1 == ve.1
            as int && pos < ve.1 <= s@.len() && se.0.len() == ve.0@.len() && (forall|k: int|
            0 <= k < se.0.len() ==> #[trigger] se.0[k] == (ve.0@[k].x as int, ve.0@[k].y as int))),
        (spec_parse_pairs(s@, pos as int) matches Some(se) && pairs_ok(se.0)) ==> r is Some,
    decreases s@.len() - pos,
{
    match parse_pair(s, pos) {
        None => {
            proof {
                if spec_parse_pairs(s@, pos as int) is Some {
                    let se = spec_parse_pairs(s@, pos as int).unwrap();
                    let p = spec_parse_pair(s@, pos as int).unwrap().0;
                    assert(se.0[0] == p);
                }
            }
            None
        },
        Some((p, e)) => {
            if e < s.len() && s[e] == 44 {
                match parse_pairs(s, e + 1) {
                    None => {
                        proof {
                            if spec_parse_pairs(s@, pos as int) is Some {
                                let se = spec_parse_pairs(s@, pos as int).unwrap();
                                let rest = spec_parse_pairs(s@, e + 1 as int).unwrap().0;
                                assert(se.0 == seq![(p.x as int, p.y as int)] + rest);
                                if pairs_ok(se.0) {
                                    assert forall|k: int| 0 <= k < rest.len() implies -(MAX_NORM
                                        as int) <= #[trigger] rest[k].0 <= MAX_NORM as int && -(
                                    MAX_NORM as int) <= rest[k].1 <= MAX_NORM as int by {
                                        assert(rest[k] == se.0[k + 1]);
                                        assert(-(MAX_NORM as int) <= se.0[k + 1].0 <= MAX_NORM
                                            as int);
                                        assert(-(MAX_NORM as int) <= se.0[k + 1].1 <= MAX_NORM
                                            as int);
                                    }
                                }
                            }
                        }
                        None
                    },
                    Some((mut rest, e2)) => {
                        rest.insert(0, p);
                        proof {
                            if spec_parse_pairs(s@, pos as int) is Some {
                                let se = spec_parse_pairs(s@, pos as int).unwrap();
                                let srest = spec_parse_pairs(s@, e + 1 as int).unwrap().0;
                                assert forall|k: int| 0 <= k < se.0.len() implies #[trigger] se.0[k]
                                    == (rest@[k].x as int, rest@[k].y as int) by {
                                    if k == 0 {
                                        assert(se.0[0] == (p.x as int, p.y as int));
                                        assert(rest@[0] == p);
                                    } else {
                                        assert(se.0[k] == srest[k - 1]);
                                        assert(rest@[k] == rest@.subrange(1, rest@.len() as int)[k
                                            - 1]);
                                    }
                                }
                            }
                        }
                        Some((rest, e2))
                    },
                }
            } else {
                let mut v: Vec<Point> = Vec::new();
                v.push(p);
                proof {
                    let se = spec_parse_pairs(s@, pos as int).unwrap();
                    assert(se.0 == seq![(p.x as int, p.y as int)]);
                    assert(v@ =~= seq![p]);
                }
                Some((v, e))
            }
        },
    }
}

/// Parsing pairs where a detector sequence was encoded recovers exactly
/// its coordinates, provided no comma follows the final pair.
proof fn lemma_parse_pair_of_enc(s: Seq<u8>, pos: int, x: int, y: int)
    requires
        0 <= pos,
        pos + enc_pair(x, y).len() <= s.len(),
        s.subrange(pos, pos + enc_pair(x, y).len()) == enc_pair(x, y),
    ensures
        spec_parse_pair(s, pos) == Some(((x, y), pos + enc_pair(x, y).len())),
{
    let ep = enc_pair(x, y);
    let ex = enc_int(x);
    let ey = enc_int(y);
    assert forall|k: int| 0 <= k < ep.len() implies s[pos + k] == ep[k] by {
        assert(s.subrange(pos, pos + ep.len())[k] == s[pos + k]);
    }
    assert(s[pos + 0] == ep[0]);
    assert(s[pos] == 91);
    let p1 = pos + 1;
    assert forall|k: int| 0 <= k < ex.len() implies s.subrange(p1, p1 + ex.len())[k] == ex[k] by {
        assert(ep[1 + k] == ex[k]);
        assert(s[p1 + k] == ep[1 + k]);
    }
    assert(s.subrange(p1, p1 + ex.len()) =~= ex);
    assert(s[p1 + ex.len()] == ep[1 + ex.len() as int]);
    assert(ep[1 + ex.len() as int] == 44);
    assert(!is_digit(44));
    lemma_parse_int_of_enc(s, p1, x);
    let e1 = p1 + ex.len();
    assert(spec_parse_int(s, p1) == Some((x, e1)));
    let p2 = e1 + 1;
    assert forall|k: int| 0 <= k < ey.len() implies s.subrange(p2, p2 + ey.len())[k] == ey[k] by {
        assert(ep[2 + ex.len() + k] == ey[k]);
        assert(s[p2 + k] == ep[2 + ex.len() + k]);
    }
    assert(s.subrange(p2, p2 + ey.len()) =~= ey);
    assert(s[p2 + ey.len()] == ep[2 + ex.len() + ey.len() as int]);
    assert(ep[2 + ex.len() + ey.len() as int] == 93);
    assert(!is_digit(93));
    lemma_parse_int_of_enc(s, p2, y);
    let e2 = p2 + ey.len();
    assert(spec_parse_int(s, p2) == Some((y, e2)));
    assert(s[e2] == 93);
    assert(e2 + 1 == pos + ep.len());
}

proof fn lemma_parse_pairs_of_enc(s: Seq<u8>, pos: int, dets: Seq<Point>)
    requires
        0 <= pos,
        dets.len() >= 1,
        pos + enc_detectors(dets).len() <= s.len(),
        s.subrange(pos, pos + enc_detectors(dets).len()) == enc_detectors(dets),
        pos + enc_detectors(dets).len() == s.len() || s[pos + enc_detectors(dets).len()] != 44,
    ensures
        spec_parse_pairs(s, pos) == Some((pairs_of(dets), pos + enc_detectors(dets).len())),
    decreases dets.len(),
{
    let ed = enc_detectors(dets);
    let p0 = enc_pair(dets[0].x as int, dets[0].y as int);
    let end = pos + ed.len();
    assert forall|k: int| 0 <= k < ed.len() implies s[pos + k] == ed[k] by {
        assert(s.subrange(pos, pos + ed.len())[k] == s[pos + k]);
    }
    if dets.len() == 1 {
        assert(ed == p0);
        lemma_parse_pair_of_enc(s, pos, dets[0].x as int, dets[0].y as int);
        assert(spec_parse_pair(s, pos) == Some(((dets[0].x as int, dets[0].y as int), end)));
        assert(end == s.len() || s[end] != 44);
        assert(pairs_of(dets) =~= seq![(dets[0].x as int, dets[0].y as int)]);
    } else {
        let rest = dets.drop_first();
        let er = enc_detectors(rest);
        assert(ed == p0 + seq![44u8] + er);
        assert forall|k: int| 0 <= k < p0.len() implies s.subrange(pos, pos + p0.len())[k] == p0[k]
            by {
            assert(ed[k] == p0[k]);
            assert(s[pos + k] == ed[k]);
        }
        assert(s.subrange(pos, pos + p0.len()) =~= p0);
        lemma_parse_pair_of_enc(s, pos, dets[0].x as int, dets[0].y as int);
        let e = pos + p0.len();
        assert(spec_parse_pair(s, pos) == Some(((dets[0].x as int, dets[0].y as int), e)));
        assert(s[e] == ed[p0.len() as int]);
        assert(ed[p0.len() as int] == 44);
        let p2 = e + 1;
        assert forall|k: int| 0 <= k < er.len() implies s.subrange(p2, p2 + er.len())[k] == er[k]
            by {
            assert(ed[p0.len() + 1 + k] == er[k]);
            assert(s[p2 + k] == ed[p0.len() + 1 + k]);
        }
        assert(s.subrange(p2, p2 + er.len()) =~= er);
        assert(p2 + er.len() == end);
        lemma_parse_pairs_of_enc(s, p2, rest);
        assert(spec_parse_pairs(s, p2) == Some((pairs_of(rest), end)));
        assert(pairs_of(dets) =~= seq![(dets[0].x as int, dets[0].y as int)] + pairs_of(rest));
    }
}

/// The parse of the detector list: one or more pairs when one opens
/// here, the empty list otherwise.
pub open spec fn spec_parse_detlist(s: Seq<u8>, pos: int) -> Option<(Seq<(int, int)>, int)> {
    if pos < s.len() && s[pos] == 91 {
        spec_parse_pairs(s, pos)
    } else {
        Some((Seq::empty(), pos))
    }
}

/// The parse of a whole persisted model: detector pairs, radius, and the
/// two bounds, with nothing left over.
pub open spec fn spec_parse_model(s: Seq<u8>) -> Option<
    (Seq<(int, int)>, int, (int, int), (int, int)),
> {
    match spec_expect(s, 0, lit_detectors()) {
        None => None,
        Some(p1) => match spec_parse_detlist(s, p1) {
            None => None,
            Some((dets, p2)) => match spec_expect(s, p2, lit_radius()) {
                None => None,
                Some(p3) => match spec_parse_int(s, p3) {
                    None => None,
                    Some((radius, p4)) => match spec_expect(s, p4, lit_maximums()) {
                        None => None,
                        Some(p5) => match spec_parse_int(s, p5) {
                            None => None,
                            Some((mxx, p6)) => match spec_expect(s, p6, seq![44u8]) {
                                None => None,
                                Some(p7) => match spec_parse_int(s, p7) {
                                    None => None,
                                    Some((mxy, p8)) => match spec_expect(s, p8, lit_minimums()) {
                                        None => None,
                                        Some(p9) => match spec_parse_int(s, p9) {
                                            None => None,
                                            Some((mnx, p10)) => match spec_expect(
                                                s,
                                                p10,
                                                seq![44u8],
                                            ) {
                                                None => None,
                                                Some(p11) => match spec_parse_int(s, p11) {
                                                    None => None,
                                                    Some((mny, p12)) => match spec_expect(
                                                        s,
                                                        p12,
                                                        lit_end(),
                                                    ) {
                                                        None => None,
                                                        Some(p13) => if p13 == s.len() {
                                                            Some(
                                                                (
                                                                    dets,
                                                                    radius,
                                                                    (mxx, mxy),
                                                                    (mnx, mny),
                                                                ),
                                                            )
                                                        } else {
                                                            None
                                                        },
                                                    },
                                                },
                                            },
                                        },
                                    },
                                },
                            },
                        },
                    },
                },
            },
        },
    }
}

/// Match a literal at `pos`. Mirrors `spec_expect` exactly.
fn expect(s: &Vec<u8>, pos: usize, lit: &Vec<u8>) -> (r: Option<usize>)
    requires
        pos <= s@.len(),
    ensures
        r matches Some(e) ==> spec_expect(s@, pos as int, lit@) == Some(e as int) && e as int == pos
            + lit@.len() && e <= s@.len(),
        r is None ==> spec_expect(s@, pos as int, lit@) is None,
{
    if s.len() - pos < lit.len() {
        return None;
    }
    let mut j: usize = 0;
    while j < lit.len()
        invariant
            j <= lit@.len(),
            pos <= s@.len(),
            pos + lit@.len() <= s@.len(),
            s@.len() <= usize::MAX,
            forall|k: int| 0 <= k < j ==> s@[pos + k] == lit@[k],
        decreases lit@.len() - j,
    {
        if s[pos + j] != lit[j] {
            proof {
                assert(s@.subrange(pos as int, pos + lit@.len())[j as int] != lit@[j as int]);
            }
            return None;
        }
        j = j + 1;
    }
    proof {
        assert(s@.subrange(pos as int, pos + lit@.len()) =~= lit@);
    }
    Some(pos + lit.len())
}

/// A pair of parsed coordinates fits the normalized range.
pub open spec fn coords_ok(c: (int, int)) -> bool {
    -(MAX_NORM as int) <= c.0 <= MAX_NORM as int && -(MAX_NORM as int) <= c.1 <= MAX_NORM as int
}

/// Parse a whole persisted model. Mirrors `spec_parse_model`, and accepts
/// every parse whose numbers fit the machine ranges.
fn parse_model(s: &Vec<u8>) -> (r: Option<(Vec<Point>, i64, Point, Point)>)
    ensures
        r matches Some(t) ==> (spec_parse_model(s@) matches Some(st) && st.0.len() == t.0@.len()
            && (forall|k: int|
            0 <= k < st.0.len() ==> #[trigger] st.0[k] == (t.0@[k].x as int, t.0@[k].y as int))
            && st.1 == t.1 as int && st.2 == (t.2.x as int, t.2.y as int) && st.3 == (t.3.x as int,
        t.3.y as int)),
        (spec_parse_model(s@) matches Some(st) && pairs_ok(st.0) && -(MAX_NORM as int) <= st.1
            <= MAX_NORM as int && coords_ok(st.2) && coords_ok(st.3)) ==> r is Some,
{
    let lit1 = make_lit_detectors();
    let lit2 = make_lit_radius();
    let lit3 = make_lit_maximums();
    let lit4 = make_lit_minimums();
    let lit5 = make_lit_end();
    let mut comma: Vec<u8> = Vec::new();
    comma.push(44);
    proof {
        assert(comma@ =~= seq![44u8]);
    }
    let p1 = match expect(s, 0, &lit1) {
        Some(p) => p,
        None => {
            return None;
        },
    };
    let (dets, p2) = if p1 < s.len() && s[p1] == 91 {
        match parse_pairs(s, p1) {
            Some(de) => de,
            None => {
                return None;
            },
        }
    } else {
        (Vec::new(), p1)
    };
    let p3 = match expect(s, p2, &lit2) {
        Some(p) => p,
        None => {
            return None;
        },
    };
    let (radius, p4) = match parse_int(s, p3) {
        Some(ve) => ve,
        None => {
            return None;
        },
    };
    let p5 = match expect(s, p4, &lit3) {
        Some(p) => p,
        None => {
            return None;
        },
    };
    let (mxx, p6) = match parse_int(s, p5) {
        Some(ve) => ve,
        None => {
            return None;
        },
    };
    let p7 = match expect(s, p6, &comma) {
        Some(p) => p,
        None => {
            return None;
        },
    };
    let (mxy, p8) = match parse_int(s, p7) {
        Some(ve) => ve,
        None => {
            return None;
        },
    };
    let p9 = match expect(s, p8, &lit4) {
        Some(p) => p,
        None => {
            return None;
        },
    };
    let (mnx, p10) = match parse_int(s, p9) {
        Some(ve) => ve,
        None => {
            return None;
        },
    };
    let p11 = match expect(s, p10, &comma) {
        Some(p) => p,
        None => {
            return None;
        },
    };
    let (mny, p12) = match parse_int(s, p11) {
        Some(ve) => ve,
        None => {
            return None;
        },
    };
    let p13 = match expect(s, p12, &lit5) {
        Some(p) => p,
        None => {
            return None;
        },
    };
    if p13 != s.len() {
        return None;
    }
    Some((dets, radius, Point { x: mxx, y: mxy }, Point { x: mnx, y: mny }))
}

/// Extracting a middle piece of a concatenation yields that piece.
proof fn lemma_extract(s: Seq<u8>, pre: Seq<u8>, mid: Seq<u8>, post: Seq<u8>)
    requires
        s == pre + mid + post,
    ensures
        s.subrange(pre.len() as int, pre.len() + mid.len() as int) == mid,
        s.len() == pre.len() + mid.len() + post.len(),
    decreases 0int,
{
    assert forall|k: int|
        0 <= k < mid.len() implies s.subrange(pre.len() as int, pre.len() + mid.len() as int)[k] == mid[k]
        by {
        assert(s[pre.len() + k] == (pre + mid)[pre.len() + k]);
    }
    assert(s.subrange(pre.len() as int, pre.len() + mid.len() as int) =~= mid);
}

/// Offsets of the pieces inside an encoded model.
spec fn pos_after_dets(m: Model) -> int {
    lit_detectors().len() + enc_detectors(m.detectors@).len() as int
}

spec fn pos_radius(m: Model) -> int {
    pos_after_dets(m) + lit_radius().len()
}

spec fn pos_after_radius(m: Model) -> int {
    pos_radius(m) + enc_int(m.radius as int).len()
}

spec fn pos_mxx(m: Model) -> int {
    pos_after_radius(m) + lit_maximums().len()
}

spec fn pos_after_mxx(m: Model) -> int {
    pos_mxx(m) + enc_int(m.maximums.x as int).len()
}

spec fn pos_mxy(m: Model) -> int {
    pos_after_mxx(m) + 1
}

spec fn pos_after_mxy(m: Model) -> int {
    pos_mxy(m) + enc_int(m.maximums.y as int).len()
}

spec fn pos_mnx(m: Model) -> int {
    pos_after_mxy(m) + lit_minimums().len()
}

spec fn pos_after_mnx(m: Model) -> int {
    pos_mnx(m) + enc_int(m.minimums.x as int).len()
}

spec fn pos_mny(m: Model) -> int {
    pos_after_mnx(m) + 1
}

spec fn pos_after_mny(m: Model) -> int {
    pos_mny(m) + enc_int(m.minimums.y as int).len()
}

#[verifier::rlimit(100)]
proof fn lemma_enc_steps_a(m: Model)
    requires
        m.wf(),
    ensures
        spec_expect(spec_encode(m), 0, lit_detectors()) == Some(lit_detectors().len() as int),
        spec_parse_detlist(spec_encode(m), lit_detectors().len() as int) == Some(
            (pairs_of(m.detectors@), pos_after_dets(m)),
        ),
        spec_expect(spec_encode(m), pos_after_dets(m), lit_radius()) == Some(pos_radius(m)),
{
    let s = spec_encode(m);
    let l1 = lit_detectors();
    let ed = enc_detectors(m.detectors@);
    let l2 = lit_radius();
    let er = enc_int(m.radius as int);
    let l3 = lit_maximums();
    let ax = enc_int(m.maximums.x as int);
    let c = seq![44u8];
    let ay = enc_int(m.maximums.y as int);
    let l4 = lit_minimums();
    let bx = enc_int(m.minimums.x as int);
    let by = enc_int(m.minimums.y as int);
    let l5 = lit_end();
    assert(s =~= Seq::<u8>::empty() + l1 + (ed + l2 + er + l3 + ax + c + ay + l4 + bx + c + by
        + l5));
    lemma_extract(s, Seq::empty(), l1, ed + l2 + er + l3 + ax + c + ay + l4 + bx + c + by + l5);
    let p1 = l1.len() as int;
    assert(spec_expect(s, 0, l1) == Some(p1));
    assert(s =~= l1 + ed + (l2 + er + l3 + ax + c + ay + l4 + bx + c + by + l5));
    lemma_extract(s, l1, ed, l2 + er + l3 + ax + c + ay + l4 + bx + c + by + l5);
    let p2 = p1 + ed.len();
    assert(s =~= (l1 + ed) + l2 + (er + l3 + ax + c + ay + l4 + bx + c + by + l5));
    lemma_extract(s, l1 + ed, l2, er + l3 + ax + c + ay + l4 + bx + c + by + l5);
    assert(s[p2] == s.subrange(p2, p2 + l2.len() as int)[0]);
    assert(s[p2] == 93);
    if m.detectors@.len() == 0 {
        assert(ed.len() == 0);
        assert(spec_parse_detlist(s, p1) == Some((Seq::<(int, int)>::empty(), p1)));
        assert(pairs_of(m.detectors@) =~= Seq::<(int, int)>::empty());
    } else {
        assert(s.subrange(p1, p2)[0] == s[p1]);
        assert(ed[0] == enc_pair(m.detectors@[0].x as int, m.detectors@[0].y as int)[0]);
        assert(s[p1] == 91);
        lemma_parse_pairs_of_enc(s, p1, m.detectors@);
        assert(spec_parse_detlist(s, p1) == Some((pairs_of(m.detectors@), p2)));
    }
    let p3 = p2 + l2.len();
    assert(spec_expect(s, p2, l2) == Some(p3));
}

#[verifier::rlimit(100)]
proof fn lemma_enc_steps_b(m: Model)
    requires
        m.wf(),
    ensures
        spec_parse_int(spec_encode(m), pos_radius(m)) == Some(
            (m.radius as int, pos_after_radius(m)),
        ),
        spec_expect(spec_encode(m), pos_after_radius(m), lit_maximums()) == Some(pos_mxx(m)),
        spec_parse_int(spec_encode(m), pos_mxx(m)) == Some(
            (m.maximums.x as int, pos_after_mxx(m)),
        ),
        spec_expect(spec_encode(m), pos_after_mxx(m), seq![44u8]) == Some(pos_mxy(m)),
        spec_parse_int(spec_encode(m), pos_mxy(m)) == Some(
            (m.maximums.y as int, pos_after_mxy(m)),
        ),
{
    let s = spec_encode(m);
    let l1 = lit_detectors();
    let ed = enc_detectors(m.detectors@);
    let l2 = lit_radius();
    let er = enc_int(m.radius as int);
    let l3 = lit_maximums();
    let ax = enc_int(m.maximums.x as int);
    let c = seq![44u8];
    let ay = enc_int(m.maximums.y as int);
    let l4 = lit_minimums();
    let bx = enc_int(m.minimums.x as int);
    let by = enc_int(m.minimums.y as int);
    let l5 = lit_end();
    let p3 = pos_radius(m);
    assert(s =~= (l1 + ed + l2) + er + (l3 + ax + c + ay + l4 + bx + c + by + l5));
    lemma_extract(s, l1 + ed + l2, er, l3 + ax + c + ay + l4 + bx + c + by + l5);
    let p4 = p3 + er.len();
    assert(s =~= (l1 + ed + l2 + er) + l3 + (ax + c + ay + l4 + bx + c + by + l5));
    lemma_extract(s, l1 + ed + l2 + er, l3, ax + c + ay + l4 + bx + c + by + l5);
    assert(s[p4] == s.subrange(p4, p4 + l3.len() as int)[0]);
    assert(s[p4] == 44);
    assert(!is_digit(44));
    lemma_parse_int_of_enc(s, p3, m.radius as int);
    assert(spec_parse_int(s, p3) == Some((m.radius as int, p4)));
    let p5 = p4 + l3.len();
    assert(spec_expect(s, p4, l3) == Some(p5));
    assert(s =~= (l1 + ed + l2 + er + l3) + ax + (c + ay + l4 + bx + c + by + l5));
    lemma_extract(s, l1 + ed + l2 + er + l3, ax, c + ay + l4 + bx + c + by + l5);
    let p6 = p5 + ax.len();
    assert(s =~= (l1 + ed + l2 + er + l3 + ax) + c + (ay + l4 + bx + c + by + l5));
    lemma_extract(s, l1 + ed + l2 + er + l3 + ax, c, ay + l4 + bx + c + by + l5);
    assert(s[p6] == s.subrange(p6, p6 + 1)[0]);
    assert(s[p6] == 44);
    lemma_parse_int_of_enc(s, p5, m.maximums.x as int);
    assert(spec_parse_int(s, p5) == Some((m.maximums.x as int, p6)));
    let p7 = p6 + 1;
    assert(spec_expect(s, p6, c) == Some(p7));
    assert(s =~= (l1 + ed + l2 + er + l3 + ax + c) + ay + (l4 + bx + c + by + l5));
    lemma_extract(s, l1 + ed + l2 + er + l3 + ax + c, ay, l4 + bx + c + by + l5);
    let p8 = p7 + ay.len();
    assert(s =~= (l1 + ed + l2 + er + l3 + ax + c + ay) + l4 + (bx + c + by + l5));
    lemma_extract(s, l1 + ed + l2 + er + l3 + ax + c + ay, l4, bx + c + by + l5);
    assert(s[p8] == s.subrange(p8, p8 + l4.len() as int)[0]);
    assert(s[p8] == 93);
    assert(!is_digit(93));
    lemma_parse_int_of_enc(s, p7, m.maximums.y as int);
    assert(spec_parse_int(s, p7) == Some((m.maximums.y as int, p8)));
}

#[verifier::rlimit(100)]
proof fn lemma_enc_steps_c(m: Model)
    requires
        m.wf(),
    ensures
        spec_expect(spec_encode(m), pos_after_mxy(m), lit_minimums()) == Some(pos_mnx(m)),
        spec_parse_int(spec_encode(m), pos_mnx(m)) == Some(
            (m.minimums.x as int, pos_after_mnx(m)),
        ),
        spec_expect(spec_encode(m), pos_after_mnx(m), seq![44u8]) == Some(pos_mny(m)),
        spec_parse_int(spec_encode(m), pos_mny(m)) == Some(
            (m.minimums.y as int, pos_after_mny(m)),
        ),
        spec_expect(spec_encode(m), pos_after_mny(m), lit_end()) == Some(
            pos_after_mny(m) + lit_end().len(),
        ),
        pos_after_mny(m) + lit_end().len() == spec_encode(m).len(),
{
    let s = spec_encode(m);
    let l1 = lit_detectors();
    let ed = enc_detectors(m.detectors@);
    let l2 = lit_radius();
    let er = enc_int(m.radius as int);
    let l3 = lit_maximums();
    let ax = enc_int(m.maximums.x as int);
    let c = seq![44u8];
    let ay = enc_int(m.maximums.y as int);
    let l4 = lit_minimums();
    let bx = enc_int(m.minimums.x as int);
    let by = enc_int(m.minimums.y as int);
    let l5 = lit_end();
    let p8 = pos_after_mxy(m);
    assert(s =~= (l1 + ed + l2 + er + l3 + ax + c + ay) + l4 + (bx + c + by + l5));
    lemma_extract(s, l1 + ed + l2 + er + l3 + ax + c + ay, l4, bx + c + by + l5);
    let p9 = p8 + l4.len();
    assert(spec_expect(s, p8, l4) == Some(p9));
    assert(s =~= (l1 + ed + l2 + er + l3 + ax + c + ay + l4) + bx + (c + by + l5));
    lemma_extract(s, l1 + ed + l2 + er + l3 + ax + c + ay + l4, bx, c + by + l5);
    let p10 = p9 + bx.len();
    assert(s =~= (l1 + ed + l2 + er + l3 + ax + c + ay + l4 + bx) + c + (by + l5));
    lemma_extract(s, l1 + ed + l2 + er + l3 + ax + c + ay + l4 + bx, c, by + l5);
    assert(s[p10] == s.subrange(p10, p10 + 1)[0]);
    assert(s[p10] == 44);
    lemma_parse_int_of_enc(s, p9, m.minimums.x as int);
    assert(spec_parse_int(s, p9) == Some((m.minimums.x as int, p10)));
    let p11 = p10 + 1;
    assert(spec_expect(s, p10, c) == Some(p11));
    assert(s =~= (l1 + ed + l2 + er + l3 + ax + c + ay + l4 + bx + c) + by + l5);
    lemma_extract(s, l1 + ed + l2 + er + l3 + ax + c + ay + l4 + bx + c, by, l5);
    let p12 = p11 + by.len();
    assert(s =~= (l1 + ed + l2 + er + l3 + ax + c + ay + l4 + bx + c + by) + l5
        + Seq::<u8>::empty());
    lemma_extract(s, l1 + ed + l2 + er + l3 + ax + c + ay + l4 + bx + c + by, l5,
        Seq::<u8>::empty());
    assert(s[p12] == s.subrange(p12, p12 + l5.len() as int)[0]);
    assert(s[p12] == 93);
    assert(!is_digit(93));
    lemma_parse_int_of_enc(s, p11, m.minimums.y as int);
    assert(spec_parse_int(s, p11) == Some((m.minimums.y as int, p12)));
    let p13 = p12 + l5.len();
    assert(spec_expect(s, p12, l5) == Some(p13));
    assert(p13 == s.len());
}

/// Parsing an encoded model recovers exactly its persisted state.
proof fn lemma_parse_model_of_enc(m: Model)
    requires
        m.wf(),
    ensures
        spec_parse_model(spec_encode(m)) == Some(
            (
                pairs_of(m.detectors@),
                m.radius as int,
                (m.maximums.x as int, m.maximums.y as int),
                (m.minimums.x as int, m.minimums.y as int),
            ),
        ),
{
    lemma_enc_steps_a(m);
    lemma_enc_steps_b(m);
    lemma_enc_steps_c(m);
}

impl Model {
    /// Serialize exactly `{detectors, radius, maximums, minimums}` as
    /// text. The spatial index is excluded: it is derived state.
    pub fn save(&self) -> (out: Vec<u8>)
        requires
            self.wf(),
        ensures
            out@ == spec_encode(*self),
    {
        let mut out: Vec<u8> = Vec::new();
        let lit1 = make_lit_detectors();
        push_all(&mut out, &lit1);
        push_detectors(&mut out, &self.detectors, 0);
        let lit2 = make_lit_radius();
        push_all(&mut out, &lit2);
        push_int(&mut out, self.radius);
        let lit3 = make_lit_maximums();
        push_all(&mut out, &lit3);
        push_int(&mut out, self.maximums.x);
        out.push(44);
        push_int(&mut out, self.maximums.y);
        let lit4 = make_lit_minimums();
        push_all(&mut out, &lit4);
        push_int(&mut out, self.minimums.x);
        out.push(44);
        push_int(&mut out, self.minimums.y);
        let lit5 = make_lit_end();
        push_all(&mut out, &lit5);
        proof {
            assert(self.detectors@.subrange(0, self.detectors@.len() as int) =~= self.detectors@);
            assert(out@ =~= spec_encode(*self));
        }
        out
    }
}

/// The persisted numbers of a well-formed model all fit the parser's
/// machine ranges.
proof fn lemma_wf_in_ranges(m: Model)
    requires
        m.wf(),
    ensures
        pairs_ok(pairs_of(m.detectors@)),
        -(MAX_NORM as int) <= m.radius <= MAX_NORM as int,
        coords_ok((m.maximums.x as int, m.maximums.y as int)),
        coords_ok((m.minimums.x as int, m.minimums.y as int)),
{
    let q = pairs_of(m.detectors@);
    assert forall|k: int|
        0 <= k < q.len() implies -(MAX_NORM as int) <= #[trigger] q[k].0 <= MAX_NORM as int && -(
    MAX_NORM as int) <= q[k].1 <= MAX_NORM as int by {
        assert(norm_ok(m.detectors@[k]));
        assert(q[k] == (m.detectors@[k].x as int, m.detectors@[k].y as int));
    }
}

impl Model {
    /// Decode a persisted model, validate its state, and rebuild the
    /// spatial index before the model is handed back. Every byte string
    /// that `save` produces from a well-formed model is accepted and
    /// restores exactly that model's detectors, radius and bounds; a
    /// string that cannot be decoded, or whose numbers fail validation,
    /// is a `PersistenceError`.
    pub fn load(s: &Vec<u8>) -> (res: Result<Model, Error>)
        ensures
            res matches Ok(r) ==> r.wf(),
            res matches Err(e) ==> e == Error::PersistenceError,
            spec_parse_model(s@) is None ==> res is Err,
            res matches Ok(r) ==> (spec_parse_model(s@) matches Some(st) && st.0.len()
                == r.detectors@.len() && (forall|k: int|
                0 <= k < st.0.len() ==> #[trigger] st.0[k] == (r.detectors@[k].x as int,
                r.detectors@[k].y as int)) && st.1 == r.radius as int && st.2 == (r.maximums.x
                as int, r.maximums.y as int) && st.3 == (r.minimums.x as int, r.minimums.y
                as int)),
            forall|m: Model|
                m.wf() && s@ == #[trigger] spec_encode(m) ==> (res matches Ok(r) && r.detectors@
                    == m.detectors@ && r.radius == m.radius && r.maximums == m.maximums
                    && r.minimums == m.minimums),
    {
        let parsed = parse_model(s);
        if parsed.is_none() {
            proof {
                assert forall|m: Model| m.wf() && s@ == #[trigger] spec_encode(m) implies false by {
                    lemma_parse_model_of_enc(m);
                    lemma_wf_in_ranges(m);
                }
            }
            return Err(Error::PersistenceError);
        }
        let (detectors, radius, maximums, minimums) = parsed.unwrap();
        if radius < 0 || radius > MAX_NORM {
            proof {
                assert forall|m: Model| m.wf() && s@ == #[trigger] spec_encode(m) implies false by {
                    lemma_parse_model_of_enc(m);
                    lemma_wf_in_ranges(m);
                }
            }
            return Err(Error::PersistenceError);
        }
        if !(-MAX_RAW <= maximums.x && maximums.x <= MAX_RAW && -MAX_RAW <= maximums.y
            && maximums.y <= MAX_RAW && -MAX_RAW <= minimums.x && minimums.x <= MAX_RAW && -MAX_RAW
            <= minimums.y && minimums.y <= MAX_RAW) {
            proof {
                assert forall|m: Model| m.wf() && s@ == #[trigger] spec_encode(m) implies false by {
                    lemma_parse_model_of_enc(m);
                    lemma_wf_in_ranges(m);
                }
            }
            return Err(Error::PersistenceError);
        }
        let mut i: usize = 0;
        while i < detectors.len()
            invariant
                i <= detectors@.len(),
                forall|k: int| 0 <= k < i ==> norm_ok(#[trigger] detectors@[k]),
                spec_parse_model(s@) is Some,
                spec_parse_model(s@).unwrap().0.len() == detectors@.len(),
                forall|k: int|
                    0 <= k < detectors@.len() ==> #[trigger] spec_parse_model(s@).unwrap().0[k] == (
                    detectors@[k].x as int, detectors@[k].y as int),
            decreases detectors@.len() - i,
        {
            let dx = detectors[i].x;
            let dy = detectors[i].y;
            if !(-MAX_NORM <= dx && dx <= MAX_NORM && -MAX_NORM <= dy && dy <= MAX_NORM) {
                proof {
                    assert forall|m: Model|
                        m.wf() && s@ == #[trigger] spec_encode(m) implies false by {
                        lemma_parse_model_of_enc(m);
                        let st0 = spec_parse_model(s@).unwrap().0;
                        assert(st0[i as int] == (detectors@[i as int].x as int, detectors@[i
                            as int].y as int));
                        assert(st0 == pairs_of(m.detectors@));
                        assert(st0[i as int] == (m.detectors@[i as int].x as int, m.detectors@[i
                            as int].y as int));
                        assert(norm_ok(m.detectors@[i as int]));
                    }
                }
                return Err(Error::PersistenceError);
            }
            i = i + 1;
        }
        let ghost gdets = detectors@;
        let mut model = Model {
            detectors,
            radius,
            maximums,
            minimums,
            kdtree: SpatialIndex::new(),
        };
        let _ = model.init_kdtree();
        proof {
            assert forall|m: Model|
                m.wf() && s@ == #[trigger] spec_encode(m) implies model.detectors@ == m.detectors@
                && model.radius == m.radius && model.maximums == m.maximums && model.minimums
                == m.minimums by {
                lemma_parse_model_of_enc(m);
                let st = spec_parse_model(s@).unwrap();
                assert forall|k: int| 0 <= k < gdets.len() implies gdets[k] == m.detectors@[k] by {
                    assert(st.0[k] == (gdets[k].x as int, gdets[k].y as int));
                    assert(st.0[k] == pairs_of(m.detectors@)[k]);
                    assert(pairs_of(m.detectors@)[k] == (m.detectors@[k].x as int, m.detectors@[k].y
                        as int));
                }
                assert(gdets =~= m.detectors@);
            }
        }
        Ok(model)
    }
}

/// Law: two models holding the same detectors, radius and bounds classify
/// every point identically — so a model that `load` restored from `save`'s
/// output classifies exactly as the saved model did, on every point.
pub proof fn lemma_same_state_same_eval(a: Model, b: Model, p: Point)
    requires
        a.detectors@ == b.detectors@,
        a.radius == b.radius,
        a.maximums == b.maximums,
        a.minimums == b.minimums,
    ensures
        a.spec_eval(p) == b.spec_eval(p),
{
}

} // verus!
