//! Byte-string helpers for wire formats: searching, ASCII classes and
//! case folding.

use vstd::prelude::*;

verus! {

pub open spec fn seq_starts_with(b: Seq<u8>, p: Seq<u8>) -> bool {
    p.len() <= b.len() && b.subrange(0, p.len() as int) == p
}

/// Whether `b` begins with `p`.
pub fn starts_with(b: &[u8], p: &[u8]) -> (r: bool)
    ensures
        r == seq_starts_with(b@, p@),
{
    if p.len() > b.len() {
        return false;
    }
    let mut i: usize = 0;
    while i < p.len()
        invariant
            p@.len() <= b@.len(),
            i <= p@.len(),
            forall|j: int| 0 <= j < i ==> b@[j] == p@[j],
        decreases p.len() - i,
    {
        if b[i] != p[i] {
            assert(b@.subrange(0, p@.len() as int)[i as int] != p@[i as int]);
            return false;
        }
        i = i + 1;
    }
    assert(b@.subrange(0, p@.len() as int) =~= p@);
    true
}

/// Whether the two byte strings are equal.
pub fn bytes_equal(a: &[u8], b: &[u8]) -> (r: bool)
    ensures
        r == (a@ == b@),
{
    if a.len() != b.len() {
        return false;
    }
    let r = starts_with(a, b);
    proof {
        if r {
            assert(a@ =~= a@.subrange(0, b@.len() as int));
        } else {
            if a@ == b@ {
                assert(a@.subrange(0, b@.len() as int) =~= b@);
            }
        }
    }
    r
}

/// A CR LF pair starts at position `i` of `b`.
pub open spec fn crlf_at(b: Seq<u8>, i: int) -> bool {
    0 <= i && i + 1 < b.len() && b[i] == 13 && b[i + 1] == 10
}

/// No CR LF pair starts in `[from, to)`.
pub open spec fn no_crlf_in(b: Seq<u8>, from: int, to: int) -> bool {
    forall|i: int| from <= i < to ==> !#[trigger] crlf_at(b, i)
}

/// Position of the first CR LF pair at or after `from`, if any.
pub fn find_crlf(b: &[u8], from: usize) -> (r: Option<usize>)
    requires
        from <= b@.len(),
    ensures
        match r {
            Some(i) => from <= i && crlf_at(b@, i as int) && no_crlf_in(b@, from as int, i as int),
            None => no_crlf_in(b@, from as int, b@.len() as int),
        },
{
    let mut i = from;
    while i < b.len() && i + 1 < b.len()
        invariant
            from <= i <= b@.len(),
            no_crlf_in(b@, from as int, i as int),
        decreases b.len() - i,
    {
        if b[i] == 13 && b[i + 1] == 10 {
            return Some(i);
        }
        i = i + 1;
    }
    proof {
        assert forall|j: int| from <= j < b@.len() implies !#[trigger] crlf_at(b@, j) by {
            if j >= i as int {
                assert(j + 1 >= b@.len());
            }
        }
    }
    None
}

/// Position of the first `x` in `b[from..]`, if any.
pub fn find_byte(b: &[u8], from: usize, x: u8) -> (r: Option<usize>)
    requires
        from <= b@.len(),
    ensures
        match r {
            Some(i) => from <= i < b@.len() && b@[i as int] == x
                && forall|j: int| from <= j < i ==> b@[j] != x,
            None => forall|j: int| from <= j < b@.len() ==> b@[j] != x,
        },
{
    let mut i = from;
    while i < b.len()
        invariant
            from <= i <= b@.len(),
            forall|j: int| from <= j < i ==> b@[j] != x,
        decreases b.len() - i,
    {
        if b[i] == x {
            return Some(i);
        }
        i = i + 1;
    }
    None
}

pub open spec fn is_digit(b: u8) -> bool {
    48 <= b <= 57
}

pub open spec fn is_alpha(b: u8) -> bool {
    (65 <= b <= 90) || (97 <= b <= 122)
}

pub open spec fn is_hex_digit(b: u8) -> bool {
    is_digit(b) || (65 <= b <= 70) || (97 <= b <= 102)
}

/// ASCII whitespace as `u8::is_ascii_whitespace` defines it.
pub open spec fn is_ascii_space(b: u8) -> bool {
    b == 32 || b == 9 || b == 10 || b == 12 || b == 13
}

pub open spec fn lower_byte(b: u8) -> u8 {
    if 65 <= b <= 90 { (b + 32) as u8 } else { b }
}

pub fn to_lower_byte(b: u8) -> (r: u8)
    ensures
        r == lower_byte(b),
{
    if 65 <= b && b <= 90 { b + 32 } else { b }
}

/// ASCII case-insensitive equality of byte strings.
pub open spec fn eq_ignore_case(a: Seq<u8>, b: Seq<u8>) -> bool {
    a.len() == b.len() && forall|i: int| 0 <= i < a.len() ==> lower_byte(#[trigger] a[i]) == lower_byte(b[i])
}

pub fn bytes_eq_ignore_case(a: &[u8], b: &[u8]) -> (r: bool)
    ensures
        r == eq_ignore_case(a@, b@),
{
    if a.len() != b.len() {
        return false;
    }
    let mut i: usize = 0;
    while i < a.len()
        invariant
            a@.len() == b@.len(),
            i <= a@.len(),
            forall|j: int| 0 <= j < i ==> lower_byte(#[trigger] a@[j]) == lower_byte(b@[j]),
        decreases a.len() - i,
    {
        if to_lower_byte(a[i]) != to_lower_byte(b[i]) {
            return false;
        }
        i = i + 1;
    }
    true
}

/// Number of leading ASCII-whitespace bytes of `b`.
pub open spec fn leading_space(b: Seq<u8>) -> int
    decreases b.len(),
{
    if b.len() > 0 && is_ascii_space(b[0]) { 1 + leading_space(b.drop_first()) } else { 0 }
}

/// Number of trailing ASCII-whitespace bytes of `b`.
pub open spec fn trailing_space(b: Seq<u8>) -> int
    decreases b.len(),
{
    if b.len() > 0 && is_ascii_space(b.last()) { 1 + trailing_space(b.drop_last()) } else { 0 }
}

/// `b` without leading and trailing ASCII whitespace (`<[u8]>::trim_ascii`).
pub open spec fn trim_ascii(b: Seq<u8>) -> Seq<u8> {
    let s = b.subrange(leading_space(b), b.len() as int);
    s.subrange(0, s.len() - trailing_space(s))
}

proof fn lemma_leading_space(b: Seq<u8>, i: int)
    requires
        0 <= i <= b.len(),
        forall|j: int| 0 <= j < i ==> is_ascii_space(#[trigger] b[j]),
        i == b.len() || !is_ascii_space(b[i]),
    ensures
        leading_space(b) == i,
    decreases i,
{
    if i > 0 {
        lemma_leading_space(b.drop_first(), i - 1);
    }
}

proof fn lemma_trailing_space(b: Seq<u8>, i: int)
    requires
        0 <= i <= b.len(),
        forall|j: int| b.len() - i <= j < b.len() ==> is_ascii_space(#[trigger] b[j]),
        i == b.len() || !is_ascii_space(b[b.len() - 1 - i]),
    ensures
        trailing_space(b) == i,
    decreases i,
{
    if i > 0 {
        assert forall|j: int| b.drop_last().len() - (i - 1) <= j < b.drop_last().len() implies is_ascii_space(#[trigger] b.drop_last()[j]) by {
            assert(b.drop_last()[j] == b[j]);
        }
        lemma_trailing_space(b.drop_last(), i - 1);
    }
}

/// Bounds `(start, end)` of the ASCII-trimmed part of `b[from..to]`.
pub fn trim_bounds(b: &[u8], from: usize, to: usize) -> (r: (usize, usize))
    requires
        from <= to <= b@.len(),
    ensures
        from <= r.0 <= r.1 <= to,
        b@.subrange(r.0 as int, r.1 as int) == trim_ascii(b@.subrange(from as int, to as int)),
{
    let ghost s = b@.subrange(from as int, to as int);
    let mut start = from;
    while start < to && (b[start] == 32 || b[start] == 9 || b[start] == 10 || b[start] == 12 || b[start] == 13)
        invariant
            from <= start <= to <= b@.len(),
            forall|j: int| from <= j < start ==> is_ascii_space(#[trigger] b@[j]),
        decreases to - start,
    {
        start = start + 1;
    }
    proof {
        assert forall|j: int| 0 <= j < start - from implies is_ascii_space(#[trigger] s[j]) by {
            assert(s[j] == b@[from + j]);
        }
        lemma_leading_space(s, start - from);
    }
    let ghost t = s.subrange(leading_space(s), s.len() as int);
    let mut end = to;
    while end > start && (b[end - 1] == 32 || b[end - 1] == 9 || b[end - 1] == 10 || b[end - 1] == 12 || b[end - 1] == 13)
        invariant
            start <= end <= to <= b@.len(),
            forall|j: int| end <= j < to ==> is_ascii_space(#[trigger] b@[j]),
        decreases end - start,
    {
        end = end - 1;
    }
    proof {
        assert(t =~= b@.subrange(start as int, to as int));
        assert forall|j: int| t.len() - (to - end) <= j < t.len() implies is_ascii_space(#[trigger] t[j]) by {
            assert(t[j] == b@[start + j]);
        }
        if end > start {
            assert(t[t.len() - 1 - (to - end)] == b@[end - 1]);
        }
        lemma_trailing_space(t, (to - end) as int);
        assert(b@.subrange(start as int, end as int) =~= t.subrange(0, t.len() - trailing_space(t)));
    }
    (start, end)
}

} // verus!

verus! {

/// Position of the first CR LF at or after `from`, or -1.
pub open spec fn first_crlf(b: Seq<u8>, from: int) -> int
    decreases b.len() - from,
{
    if from < 0 || from + 1 >= b.len() {
        -1
    } else if crlf_at(b, from) {
        from
    } else {
        first_crlf(b, from + 1)
    }
}

pub proof fn lemma_first_crlf(b: Seq<u8>, from: int, i: int)
    requires
        0 <= from <= i,
        crlf_at(b, i),
        no_crlf_in(b, from, i),
    ensures
        first_crlf(b, from) == i,
    decreases i - from,
{
    if from < i {
        lemma_first_crlf(b, from + 1, i);
    }
}

pub proof fn lemma_no_first_crlf(b: Seq<u8>, from: int)
    requires
        0 <= from,
        no_crlf_in(b, from, b.len() as int),
    ensures
        first_crlf(b, from) == -1,
    decreases b.len() - from,
{
    if from + 1 < b.len() {
        lemma_no_first_crlf(b, from + 1);
    }
}

/// Position of the first CR LF CR LF at or after `from`, or -1.
pub open spec fn first_blank_line(b: Seq<u8>, from: int) -> int
    decreases b.len() - from,
{
    if from < 0 || from + 3 >= b.len() {
        -1
    } else if crlf_at(b, from) && crlf_at(b, from + 2) {
        from
    } else {
        first_blank_line(b, from + 1)
    }
}

/// Position of the first CR LF CR LF at or after `from`, if any.
pub fn find_blank_line(b: &[u8], from: usize) -> (r: Option<usize>)
    requires
        from <= b@.len(),
    ensures
        match r {
            Some(i) => i as int == first_blank_line(b@, from as int) && i + 4 <= b@.len(),
            None => first_blank_line(b@, from as int) == -1,
        },
    decreases b@.len() - from,
{
    if b.len() - from < 4 {
        return None;
    }
    if b[from] == 13 && b[from + 1] == 10 && b[from + 2] == 13 && b[from + 3] == 10 {
        return Some(from);
    }
    find_blank_line(b, from + 1)
}

/// The value of a string of decimal digits.
pub open spec fn decimal_value(s: Seq<u8>) -> nat
    decreases s.len(),
{
    if s.len() == 0 {
        0
    } else {
        decimal_value(s.drop_last()) * 10 + (s.last() - 48) as nat
    }
}

pub open spec fn hex_digit_value(b: u8) -> nat {
    if is_digit(b) {
        (b - 48) as nat
    } else if 65 <= b <= 70 {
        (b - 55) as nat
    } else {
        (b - 87) as nat
    }
}

/// The value of a string of hexadecimal digits.
pub open spec fn hex_value(s: Seq<u8>) -> nat
    decreases s.len(),
{
    if s.len() == 0 {
        0
    } else {
        hex_value(s.drop_last()) * 16 + hex_digit_value(s.last())
    }
}

pub proof fn lemma_decimal_monotone(s: Seq<u8>, i: int)
    requires
        0 <= i <= s.len(),
        forall|j: int| 0 <= j < s.len() ==> is_digit(#[trigger] s[j]),
    ensures
        decimal_value(s.subrange(0, i)) <= decimal_value(s),
    decreases s.len() - i,
{
    if i < s.len() {
        lemma_decimal_monotone(s, i + 1);
        let p = s.subrange(0, i + 1);
        assert(p.drop_last() =~= s.subrange(0, i));
    } else {
        assert(s.subrange(0, i) =~= s);
    }
}

pub proof fn lemma_hex_monotone(s: Seq<u8>, i: int)
    requires
        0 <= i <= s.len(),
    ensures
        hex_value(s.subrange(0, i)) <= hex_value(s),
    decreases s.len() - i,
{
    if i < s.len() {
        lemma_hex_monotone(s, i + 1);
        let p = s.subrange(0, i + 1);
        assert(p.drop_last() =~= s.subrange(0, i));
    } else {
        assert(s.subrange(0, i) =~= s);
    }
}

/// Parses `b[from..to]`, all decimal digits, as a `usize`; `None` when the
/// value does not fit.
pub fn parse_decimal(b: &[u8], from: usize, to: usize) -> (r: Option<usize>)
    requires
        from <= to <= b@.len(),
        forall|j: int| from <= j < to ==> is_digit(#[trigger] b@[j]),
    ensures
        match r {
            Some(v) => v as nat == decimal_value(b@.subrange(from as int, to as int)),
            None => decimal_value(b@.subrange(from as int, to as int)) > usize::MAX,
        },
{
    let ghost s = b@.subrange(from as int, to as int);
    let mut acc: usize = 0;
    let mut i = from;
    proof { assert(s.subrange(0, 0) =~= Seq::<u8>::empty()); }
    while i < to
        invariant
            from <= i <= to <= b@.len(),
            s == b@.subrange(from as int, to as int),
            forall|j: int| from <= j < to ==> is_digit(#[trigger] b@[j]),
            acc as nat == decimal_value(s.subrange(0, i - from)),
        decreases to - i,
    {
        let d = (b[i] - 48) as usize;
        let ghost p = s.subrange(0, i + 1 - from);
        proof {
            assert(p.drop_last() =~= s.subrange(0, i - from));
            assert(p.last() == b@[i as int]);
        }
        if acc > (usize::MAX - d) / 10 {
            proof {
                assert(acc * 10 + d > usize::MAX) by (nonlinear_arith)
                    requires acc > (usize::MAX - d) / 10, d <= 9;
                assert forall|j: int| 0 <= j < s.len() implies is_digit(#[trigger] s[j]) by {
                    assert(s[j] == b@[from + j]);
                }
                lemma_decimal_monotone(s, i + 1 - from);
            }
            return None;
        }
        proof {
            assert(acc * 10 + d <= usize::MAX) by (nonlinear_arith)
                requires acc <= (usize::MAX - d) / 10, d <= 9;
        }
        acc = acc * 10 + d;
        i = i + 1;
    }
    proof { assert(s.subrange(0, to - from) =~= s); }
    Some(acc)
}

/// Parses `b[from..to]`, all hexadecimal digits, as a `usize`; `None`
/// when the value does not fit.
pub fn parse_hex(b: &[u8], from: usize, to: usize) -> (r: Option<usize>)
    requires
        from <= to <= b@.len(),
        forall|j: int| from <= j < to ==> is_hex_digit(#[trigger] b@[j]),
    ensures
        match r {
            Some(v) => v as nat == hex_value(b@.subrange(from as int, to as int)),
            None => hex_value(b@.subrange(from as int, to as int)) > usize::MAX,
        },
{
    let ghost s = b@.subrange(from as int, to as int);
    let mut acc: usize = 0;
    let mut i = from;
    proof { assert(s.subrange(0, 0) =~= Seq::<u8>::empty()); }
    while i < to
        invariant
            from <= i <= to <= b@.len(),
            s == b@.subrange(from as int, to as int),
            forall|j: int| from <= j < to ==> is_hex_digit(#[trigger] b@[j]),
            acc as nat == hex_value(s.subrange(0, i - from)),
        decreases to - i,
    {
        let c = b[i];
        let d: usize = if 48 <= c && c <= 57 { (c - 48) as usize } else if 65 <= c && c <= 70 { (c - 55) as usize } else { (c - 87) as usize };
        let ghost p = s.subrange(0, i + 1 - from);
        proof {
            assert(p.drop_last() =~= s.subrange(0, i - from));
            assert(p.last() == b@[i as int]);
            assert(d as nat == hex_digit_value(c));
        }
        if acc > (usize::MAX - d) / 16 {
            proof {
                assert(acc * 16 + d > usize::MAX) by (nonlinear_arith)
                    requires acc > (usize::MAX - d) / 16, d <= 15;
                lemma_hex_monotone(s, i + 1 - from);
            }
            return None;
        }
        proof {
            assert(acc * 16 + d <= usize::MAX) by (nonlinear_arith)
                requires acc <= (usize::MAX - d) / 16, d <= 15;
        }
        acc = acc * 16 + d;
        i = i + 1;
    }
    proof { assert(s.subrange(0, to - from) =~= s); }
    Some(acc)
}

/// Copies `b[from..to]` into a fresh vector.
pub fn copy_range(b: &[u8], from: usize, to: usize) -> (r: Vec<u8>)
    requires
        from <= to <= b@.len(),
    ensures
        r@ == b@.subrange(from as int, to as int),
{
    let mut out: Vec<u8> = Vec::new();
    let mut i = from;
    while i < to
        invariant
            from <= i <= to,
            to <= b@.len(),
            out@ == b@.subrange(from as int, i as int),
        decreases to - i,
    {
        out.push(b[i]);
        i = i + 1;
        proof { assert(out@ =~= b@.subrange(from as int, i as int)); }
    }
    out
}

/// Appends `p` to `v`.
pub fn extend_bytes(v: &mut Vec<u8>, p: &[u8])
    ensures
        final(v)@ == old(v)@ + p@,
{
    let ghost v0 = v@;
    let mut i: usize = 0;
    while i < p.len()
        invariant
            i <= p@.len(),
            v@ == v0 + p@.subrange(0, i as int),
        decreases p.len() - i,
    {
        v.push(p[i]);
        i = i + 1;
        proof { assert(v@ =~= v0 + p@.subrange(0, i as int)); }
    }
    proof { assert(p@.subrange(0, p@.len() as int) =~= p@); }
}

} // verus!
