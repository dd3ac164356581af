use vstd::prelude::*;

verus! {

use crate::vector_clock::{ClockV, VectorClock, zero_clock_vals};
use crate::payload::{MessagePayload, MsgV};

/// The ingress wire format: a line `process:R,op:O,value:V` — fields
/// comma-separated, colon-keyed, whitespace-tolerant around values, in any
/// order. This module parses a received line into a pseudo-payload.

pub open spec fn is_ws(b: u8) -> bool {
    b == 32 || (9 <= b <= 13)
}

/// First index in `[i, hi)` holding `ch`; `hi` if none does.
pub open spec fn find_from(s: Seq<u8>, ch: u8, i: int, hi: int) -> int
    decreases hi - i,
{
    if i >= hi {
        hi
    } else if s[i] == ch {
        i
    } else {
        find_from(s, ch, i + 1, hi)
    }
}

/// First index in `[i, hi)` past the leading whitespace.
pub open spec fn trim_lo(s: Seq<u8>, i: int, hi: int) -> int
    decreases hi - i,
{
    if i >= hi || !is_ws(s[i]) {
        i
    } else {
        trim_lo(s, i + 1, hi)
    }
}

/// End of `[lo, hi)` with the trailing whitespace dropped.
pub open spec fn trim_hi(s: Seq<u8>, lo: int, hi: int) -> int
    decreases hi - lo,
{
    if hi <= lo || !is_ws(s[hi - 1]) {
        hi
    } else {
        trim_hi(s, lo, hi - 1)
    }
}

pub open spec fn all_digits(s: Seq<u8>, lo: int, hi: int) -> bool {
    forall|j: int| lo <= j < hi ==> 48 <= #[trigger] s[j] <= 57
}

/// The number the digits `[lo, hi)` denote.
pub open spec fn digits_val(s: Seq<u8>, lo: int, hi: int) -> int
    decreases hi - lo,
{
    if hi <= lo {
        0
    } else {
        digits_val(s, lo, hi - 1) * 10 + (s[hi - 1] - 48)
    }
}

/// What `[lo, hi)` parses to as a signed 32-bit decimal: an optional sign,
/// then at least one digit, the value within range.
pub open spec fn parse_int_v(s: Seq<u8>, lo: int, hi: int) -> Option<i32> {
    let signed = lo < hi && (s[lo] == 45 || s[lo] == 43);
    let lo1 = if signed {
        lo + 1
    } else {
        lo
    };
    if lo1 >= hi || !all_digits(s, lo1, hi) {
        Option::None
    } else {
        let v = if lo < hi && s[lo] == 45 {
            -digits_val(s, lo1, hi)
        } else {
            digits_val(s, lo1, hi)
        };
        if -2147483648 <= v <= 2147483647 {
            Option::Some(v as i32)
        } else {
            Option::None
        }
    }
}

pub open spec fn is_key(s: Seq<u8>, lo: int, hi: int, k: Seq<u8>) -> bool {
    hi - lo == k.len() && (forall|j: int| 0 <= j < k.len() ==> s[lo + j] == #[trigger] k[j])
}

pub open spec fn key_process() -> Seq<u8> {
    seq![('p' as u8), ('r' as u8), ('o' as u8), ('c' as u8), ('e' as u8), ('s' as u8), ('s' as u8)]
}

pub open spec fn key_op() -> Seq<u8> {
    seq![('o' as u8), ('p' as u8)]
}

pub open spec fn key_value() -> Seq<u8> {
    seq![('v' as u8), ('a' as u8), ('l' as u8), ('u' as u8), ('e' as u8)]
}

/// One comma-separated part `[lo, hi)`: trimmed, split at its first colon
/// into a key and a value (the value ending at a second colon if one
/// occurs); a recognised key overwrites its field with the parse result of
/// the trimmed value; anything else changes nothing.
pub open spec fn apply_part_v(
    s: Seq<u8>,
    lo: int,
    hi: int,
    p: Option<i32>,
    o: Option<i32>,
    v: Option<i32>,
) -> (Option<i32>, Option<i32>, Option<i32>) {
    let tl = trim_lo(s, lo, hi);
    let th = trim_hi(s, tl, hi);
    let c = find_from(s, (':' as u8), tl, th);
    if c >= th {
        (p, o, v)
    } else {
        let d = find_from(s, (':' as u8), c + 1, th);
        let vl = trim_lo(s, c + 1, d);
        let vh = trim_hi(s, vl, d);
        if is_key(s, tl, c, key_process()) {
            (parse_int_v(s, vl, vh), o, v)
        } else if is_key(s, tl, c, key_op()) {
            (p, parse_int_v(s, vl, vh), v)
        } else if is_key(s, tl, c, key_value()) {
            (p, o, parse_int_v(s, vl, vh))
        } else {
            (p, o, v)
        }
    }
}

/// Fold over the comma-separated parts from `i` on.
pub open spec fn scan_v(
    s: Seq<u8>,
    i: int,
    hi: int,
    p: Option<i32>,
    o: Option<i32>,
    v: Option<i32>,
) -> (Option<i32>, Option<i32>, Option<i32>)
    decreases hi - i,
{
    if i > hi {
        (p, o, v)
    } else {
        let e = find_from(s, (',' as u8), i, hi);
        let r = apply_part_v(s, i, e, p, o, v);
        if e >= hi {
            r
        } else {
            let next = if e + 1 > i {
                e + 1
            } else {
                i + 1
            };
            scan_v(s, next, hi, r.0, r.1, r.2)
        }
    }
}

/// What a whole line parses to: the process, op and value fields, all
/// three required.
pub open spec fn parse_line_v(s: Seq<u8>) -> Option<(i32, i32, i32)> {
    let r = scan_v(s, 0, s.len() as int, Option::None, Option::None, Option::None);
    match (r.0, r.1, r.2) {
        (Option::Some(p), Option::Some(o), Option::Some(v)) => Option::Some((p, o, v)),
        _ => Option::None,
    }
}

proof fn lemma_digits_val_nonneg(s: Seq<u8>, lo: int, hi: int)
    requires
        all_digits(s, lo, hi),
    ensures
        digits_val(s, lo, hi) >= 0,
    decreases hi - lo,
{
    if hi > lo {
        lemma_digits_val_nonneg(s, lo, hi - 1);
    }
}

proof fn lemma_digits_val_mono(s: Seq<u8>, lo: int, k: int, hi: int)
    requires
        lo <= k <= hi,
        all_digits(s, lo, hi),
    ensures
        digits_val(s, lo, hi) >= digits_val(s, lo, k),
    decreases hi - k,
{
    if k < hi {
        lemma_digits_val_mono(s, lo, k, hi - 1);
        lemma_digits_val_nonneg(s, lo, hi - 1);
    }
}

/// First index past the leading whitespace of `[from, hi)`.
fn trim_start(s: &Vec<u8>, from: usize, hi: usize) -> (a: usize)
    requires
        from <= hi <= s@.len(),
    ensures
        a as int == trim_lo(s@, from as int, hi as int),
        from <= a <= hi,
    decreases hi - from,
{
    let mut a = from;
    while a < hi
        invariant
            from <= a <= hi <= s@.len(),
            trim_lo(s@, from as int, hi as int) == trim_lo(s@, a as int, hi as int),
        decreases hi - a,
    {
        let b = s[a];
        if !(b == 32 || (9 <= b && b <= 13)) {
            return a;
        }
        a = a + 1;
    }
    a
}

/// End of `[lo, hi)` with the trailing whitespace dropped.
fn trim_end(s: &Vec<u8>, lo: usize, hi: usize) -> (b: usize)
    requires
        lo <= hi <= s@.len(),
    ensures
        b as int == trim_hi(s@, lo as int, hi as int),
        lo <= b <= hi,
{
    let mut b = hi;
    while b > lo
        invariant
            lo <= b <= hi <= s@.len(),
            trim_hi(s@, lo as int, hi as int) == trim_hi(s@, lo as int, b as int),
        decreases b,
    {
        let c = s[b - 1];
        if !(c == 32 || (9 <= c && c <= 13)) {
            return b;
        }
        b = b - 1;
    }
    b
}

/// First index in `[from, hi)` holding `ch`; `hi` if none does.
fn find_byte(s: &Vec<u8>, ch: u8, from: usize, hi: usize) -> (e: usize)
    requires
        from <= hi <= s@.len(),
    ensures
        e as int == find_from(s@, ch, from as int, hi as int),
        from <= e <= hi,
{
    let mut i = from;
    while i < hi
        invariant
            from <= i <= hi <= s@.len(),
            find_from(s@, ch, from as int, hi as int) == find_from(s@, ch, i as int, hi as int),
        decreases hi - i,
    {
        if s[i] == ch {
            return i;
        }
        i = i + 1;
    }
    i
}

/// Whether `[lo, hi)` spells exactly the key `k`.
fn eq_key(s: &Vec<u8>, lo: usize, hi: usize, k: &Vec<u8>) -> (r: bool)
    requires
        lo <= hi <= s@.len(),
    ensures
        r == is_key(s@, lo as int, hi as int, k@),
{
    if hi - lo != k.len() {
        return false;
    }
    let mut j: usize = 0;
    while j < k.len()
        invariant
            hi - lo == k@.len(),
            lo <= hi <= s@.len(),
            j <= k@.len(),
            forall|x: int| 0 <= x < j ==> s@[lo + x] == #[trigger] k@[x],
        decreases k@.len() - j,
    {
        if s[lo + j] != k[j] {
            assert(s@[lo + j as int] != k@[j as int]);
            return false;
        }
        j = j + 1;
    }
    true
}

/// Parse `[lo, hi)` as a signed 32-bit decimal.
fn parse_int_range(s: &Vec<u8>, lo: usize, hi: usize) -> (r: Option<i32>)
    requires
        lo <= hi <= s@.len(),
    ensures
        r == parse_int_v(s@, lo as int, hi as int),
{
    let mut neg = false;
    let mut k = lo;
    if k < hi && (s[k] == ('-' as u8) || s[k] == ('+' as u8)) {
        neg = s[k] == ('-' as u8);
        k = k + 1;
    }
    let ghost lo1 = k as int;
    if k >= hi {
        return None;
    }
    let mut acc: i64 = 0;
    while k < hi
        invariant
            lo <= hi <= s@.len(),
            lo1 <= k as int <= hi as int,
            lo1 == if lo < hi && (s@[lo as int] == 45 || s@[lo as int] == 43) {
                lo + 1
            } else {
                lo as int
            },
            neg == (lo < hi && s@[lo as int] == 45),
            lo1 < hi as int,
            all_digits(s@, lo1, k as int),
            0 <= acc <= 2147483648i64,
            acc as int == digits_val(s@, lo1, k as int),
        decreases hi - k,
    {
        let b = s[k];
        if b < 48 || b > 57 {
            proof {
                assert(!(48 <= s@[k as int] <= 57));
                assert(!all_digits(s@, lo1, hi as int));
            }
            return None;
        }
        let d = (b - 48) as i64;
        let new_acc = acc * 10 + d;
        proof {
            assert(new_acc as int == digits_val(s@, lo1, k as int + 1));
        }
        if new_acc > 2147483648i64 {
            proof {
                if all_digits(s@, lo1, hi as int) {
                    lemma_digits_val_mono(s@, lo1, k as int + 1, hi as int);
                }
            }
            return None;
        }
        acc = new_acc;
        k = k + 1;
    }
    if neg {
        let v = -acc;
        proof {
            assert(-2147483648 <= v as int <= 2147483647);
        }
        Some(v as i32)
    } else {
        if acc > 2147483647i64 {
            None
        } else {
            Some(acc as i32)
        }
    }
}

/// One comma-separated part, applied to the three fields.
fn apply_part(s: &Vec<u8>, lo: usize, hi: usize, p: Option<i32>, o: Option<i32>, v: Option<i32>)
    -> (r: (Option<i32>, Option<i32>, Option<i32>))
    requires
        lo <= hi <= s@.len(),
    ensures
        r == apply_part_v(s@, lo as int, hi as int, p, o, v),
{
    let tl = trim_start(s, lo, hi);
    let th = trim_end(s, tl, hi);
    let c = find_byte(s, ':' as u8, tl, th);
    if c >= th {
        (p, o, v)
    } else {
        let d = find_byte(s, ':' as u8, c + 1, th);
        let vl = trim_start(s, c + 1, d);
        let vh = trim_end(s, vl, d);
        let kp: Vec<u8> = vec![
            'p' as u8,
            'r' as u8,
            'o' as u8,
            'c' as u8,
            'e' as u8,
            's' as u8,
            's' as u8,
        ];
        let ko: Vec<u8> = vec!['o' as u8, 'p' as u8];
        let kv: Vec<u8> = vec!['v' as u8, 'a' as u8, 'l' as u8, 'u' as u8, 'e' as u8];
        proof {
            assert(kp@ =~= key_process());
            assert(ko@ =~= key_op());
            assert(kv@ =~= key_value());
        }
        if eq_key(s, tl, c, &kp) {
            (parse_int_range(s, vl, vh), o, v)
        } else if eq_key(s, tl, c, &ko) {
            (p, parse_int_range(s, vl, vh), v)
        } else if eq_key(s, tl, c, &kv) {
            (p, o, parse_int_range(s, vl, vh))
        } else {
            (p, o, v)
        }
    }
}

/// Scan every comma-separated part of the line.
fn scan_fields(s: &Vec<u8>) -> (r: (Option<i32>, Option<i32>, Option<i32>))
    ensures
        r == scan_v(s@, 0, s@.len() as int, Option::None, Option::None, Option::None),
{
    let n = s.len();
    let mut p: Option<i32> = None;
    let mut o: Option<i32> = None;
    let mut v: Option<i32> = None;
    let mut i: usize = 0;
    while i <= n
        invariant
            i <= n == s@.len(),
            scan_v(s@, 0, n as int, Option::None, Option::None, Option::None) == scan_v(
                s@,
                i as int,
                n as int,
                p,
                o,
                v,
            ),
        decreases n - i,
    {
        let e = find_byte(s, ',' as u8, i, n);
        let r3 = apply_part(s, i, e, p, o, v);
        p = r3.0;
        o = r3.1;
        v = r3.2;
        if e >= n {
            return (p, o, v);
        }
        i = e + 1;
    }
    proof {
        assert(false);
    }
    (p, o, v)
}

/// Parse one ingress line. A successful parse yields a pseudo-payload with
/// the op as its kind, the named process as invoker, sender and receiver,
/// and a default (empty) timestamp; a malformed line yields nothing.
pub fn parse_message(line: &Vec<u8>) -> (r: Option<MessagePayload>)
    ensures
        match (parse_line_v(line@), r) {
            (Option::Some(f), Option::Some(m)) => m@ == (MsgV {
                message: f.1,
                value: f.2,
                invoker: f.0,
                sender: f.0,
                receiver: f.0,
                ts: ClockV { vals: zero_clock_vals(), size: 0 },
            }),
            (Option::None, Option::None) => true,
            _ => false,
        },
{
    let f = scan_fields(line);
    match (f.0, f.1, f.2) {
        (Some(p), Some(o), Some(v)) => Some(
            MessagePayload::new(o, v, p, p, p, VectorClock::default()),
        ),
        _ => None,
    }
}

} // verus!
