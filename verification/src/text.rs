//! Character-level helpers shared by the rest of the library: conversion
//! between `&str`/`String` and `Vec<char>`, ASCII lowercasing and suffix tests.

use vstd::prelude::*;

verus! {

/// Whether `c` is an ASCII uppercase letter.
pub open spec fn is_ascii_upper(c: char) -> bool {
    65 <= (c as u32) && (c as u32) <= 90
}

/// ASCII lowercasing of one character; every other character is unchanged.
pub open spec fn lower_char(c: char) -> char {
    if is_ascii_upper(c) {
        ((c as u32) + 32) as char
    } else {
        c
    }
}

/// ASCII lowercasing of a whole sequence.
pub open spec fn lower(s: Seq<char>) -> Seq<char> {
    s.map_values(|c: char| lower_char(c))
}

/// `s` ends with `p`.
pub open spec fn ends_with(s: Seq<char>, p: Seq<char>) -> bool {
    p.len() <= s.len() && s.subrange(s.len() - p.len(), s.len() as int) == p
}

/// `s` starts with `p`.
pub open spec fn starts_with(s: Seq<char>, p: Seq<char>) -> bool {
    p.len() <= s.len() && s.subrange(0, p.len() as int) == p
}

pub fn lower_char_exec(c: char) -> (r: char)
    ensures
        r == lower_char(c),
{
    if 'A' <= c && c <= 'Z' {
        let b: u8 = c as u8;
        (b + 32) as char
    } else {
        c
    }
}

/// The characters of `s`, in order.
pub fn chars_of(s: &str) -> (v: Vec<char>)
    ensures
        v@ == s@,
{
    let n: usize = s.unicode_len();
    let mut v: Vec<char> = Vec::new();
    let mut i: usize = 0;
    while i < n
        invariant
            i <= n,
            n == s@.len(),
            v@ == s@.subrange(0, i as int),
        decreases n - i,
    {
        let c = s.get_char(i);
        v.push(c);
        i = i + 1;
    }
    v
}

/// The string made of the characters of `v`, in order. Trusted, not proved:
/// it calls std's `String::from_iter` on the characters, and claims what its
/// documentation says, that the string holds exactly those characters in the
/// order the iterator gives them.
#[verifier::external_body]
pub(crate) fn string_of(v: &Vec<char>) -> (s: String)
    ensures
        s@ == v@,
{
    String::from_iter(v.iter())
}


/// Whether `c` is an ASCII decimal digit.
pub open spec fn is_digit(c: char) -> bool {
    48 <= (c as u32) && (c as u32) <= 57
}

pub open spec fn all_digits(s: Seq<char>) -> bool {
    forall|i: int| 0 <= i < s.len() ==> is_digit(#[trigger] s[i])
}

/// The number that a string of decimal digits spells.
pub open spec fn digits_value(s: Seq<char>) -> nat
    decreases s.len(),
{
    if s.len() == 0 {
        0
    } else {
        digits_value(s.drop_last()) * 10 + ((s.last() as u32) - 48) as nat
    }
}

/// The digit character for `d < 10`.
pub open spec fn digit_char(d: nat) -> char {
    (d + 48) as char
}

/// Decimal spelling of `n`, without leading zeros (`0` is spelled `"0"`).
pub open spec fn decimal(n: nat) -> Seq<char>
    decreases n,
{
    if n < 10 {
        seq![digit_char(n)]
    } else {
        decimal(n / 10).push(digit_char(n % 10))
    }
}

/// `k` zero characters.
pub open spec fn zeros(k: nat) -> Seq<char> {
    Seq::new(k, |i: int| '0')
}

/// Decimal spelling of `n` left-padded with zeros to at least `width`
/// characters (what `format!("{n:0width$}")` prints).
pub open spec fn padded(n: nat, width: nat) -> Seq<char> {
    let d = decimal(n);
    if d.len() < width {
        zeros((width - d.len()) as nat) + d
    } else {
        d
    }
}

pub proof fn lemma_digits_value_append(a: Seq<char>, b: Seq<char>)
    ensures
        digits_value(a + b) == digits_value(a) * pow10(b.len()) + digits_value(b),
    decreases b.len(),
{
    if b.len() == 0 {
        assert(a + b =~= a);
        assert(digits_value(b) == 0);
        assert(pow10(0) == 1);
        assert(digits_value(a) * 1 == digits_value(a));
    } else {
        lemma_digits_value_append(a, b.drop_last());
        assert((a + b).drop_last() =~= a + b.drop_last());
        assert((a + b).last() == b.last());
        let x = digits_value(a);
        let p = pow10((b.len() - 1) as nat);
        let y = digits_value(b.drop_last());
        let l = ((b.last() as u32) - 48) as nat;
        assert((x * p + y) * 10 == x * (p * 10) + y * 10) by (nonlinear_arith);
        assert(pow10(b.len()) == p * 10);
        assert(digits_value(b) == y * 10 + l);
        assert(digits_value(a + b) == digits_value(a + b.drop_last()) * 10 + l);
        assert(digits_value(a + b.drop_last()) == x * p + y);
    }
}

/// `10` to the power `k`.
pub open spec fn pow10(k: nat) -> nat
    decreases k,
{
    if k == 0 {
        1
    } else {
        pow10((k - 1) as nat) * 10
    }
}

pub proof fn lemma_zeros_value(k: nat)
    ensures
        digits_value(zeros(k)) == 0,
        all_digits(zeros(k)),
    decreases k,
{
    if k > 0 {
        lemma_zeros_value((k - 1) as nat);
        assert(zeros(k).drop_last() =~= zeros((k - 1) as nat));
    }
}

pub proof fn lemma_decimal_value(n: nat)
    ensures
        digits_value(decimal(n)) == n,
        all_digits(decimal(n)),
        decimal(n).len() >= 1,
    decreases n,
{
    if n < 10 {
        assert(decimal(n).drop_last() =~= Seq::<char>::empty());
        assert((digit_char(n) as u32) == n + 48);
        assert(digits_value(Seq::<char>::empty()) == 0);
    } else {
        lemma_decimal_value(n / 10);
        assert(decimal(n).drop_last() =~= decimal(n / 10));
        assert(n == (n / 10) * 10 + n % 10) by (nonlinear_arith);
        assert((digit_char(n % 10) as u32) == n % 10 + 48);
        assert(decimal(n).last() == digit_char(n % 10));
    }
}

/// A padded number reads back as the number itself.
pub proof fn lemma_padded_value(n: nat, width: nat)
    ensures
        digits_value(padded(n, width)) == n,
        all_digits(padded(n, width)),
        padded(n, width).len() >= width,
        padded(n, width).len() >= 1,
{
    lemma_decimal_value(n);
    let d = decimal(n);
    if d.len() < width {
        let z = zeros((width - d.len()) as nat);
        lemma_zeros_value((width - d.len()) as nat);
        lemma_digits_value_append(z, d);
        assert forall|i: int| 0 <= i < (z + d).len() implies is_digit(#[trigger] (z + d)[i]) by {
            if i < z.len() {
                assert((z + d)[i] == z[i]);
            } else {
                assert((z + d)[i] == d[i - z.len()]);
            }
        }
    }
}

/// Different numbers never print the same.
pub proof fn lemma_padded_injective(a: nat, b: nat, w: nat)
    requires
        padded(a, w) == padded(b, w),
    ensures
        a == b,
{
    lemma_padded_value(a, w);
    lemma_padded_value(b, w);
}


/// `p` occurs in `s` at position `i`.
pub open spec fn matches_at(s: Seq<char>, p: Seq<char>, i: int) -> bool {
    0 <= i && i + p.len() <= s.len() && s.subrange(i, i + p.len()) == p
}

/// The last position `<= i` where `p` occurs in `s`.
pub open spec fn rfind_from(s: Seq<char>, p: Seq<char>, i: int) -> Option<int>
    decreases i + 1,
{
    if i < 0 {
        None
    } else if matches_at(s, p, i) {
        Some(i)
    } else {
        rfind_from(s, p, i - 1)
    }
}

/// The last position where `p` occurs in `s`.
pub open spec fn rfind(s: Seq<char>, p: Seq<char>) -> Option<int> {
    rfind_from(s, p, s.len() - p.len())
}

/// `s` cut around the last occurrence of `p` (what `str::rsplit_once` gives).
pub open spec fn rsplit_once(s: Seq<char>, p: Seq<char>) -> Option<(Seq<char>, Seq<char>)> {
    match rfind(s, p) {
        Some(i) => Some((s.subrange(0, i), s.subrange(i + p.len(), s.len() as int))),
        None => None,
    }
}

pub proof fn lemma_rfind_from(s: Seq<char>, p: Seq<char>, i: int)
    ensures
        rfind_from(s, p, i) matches Some(r) ==> {
            &&& matches_at(s, p, r)
            &&& r <= i
            &&& forall|j: int| r < j <= i ==> !matches_at(s, p, j)
        },
        rfind_from(s, p, i) is None ==> forall|j: int| 0 <= j <= i ==> !matches_at(s, p, j),
    decreases i + 1,
{
    if i >= 0 && !matches_at(s, p, i) {
        lemma_rfind_from(s, p, i - 1);
    }
}

/// Copy of `s[lo..hi]`.
pub fn slice_chars(s: &Vec<char>, lo: usize, hi: usize) -> (r: Vec<char>)
    requires
        lo <= hi <= s.len(),
    ensures
        r@ == s@.subrange(lo as int, hi as int),
{
    let mut r: Vec<char> = Vec::new();
    let mut i: usize = lo;
    while i < hi
        invariant
            lo <= i <= hi <= s.len(),
            r@ == s@.subrange(lo as int, i as int),
        decreases hi - i,
    {
        r.push(s[i]);
        i = i + 1;
    }
    r
}

/// Appends the characters of `b` to `r`.
pub fn push_all(r: &mut Vec<char>, b: &Vec<char>)
    ensures
        final(r)@ == old(r)@ + b@,
{
    let mut i: usize = 0;
    while i < b.len()
        invariant
            i <= b.len(),
            r@ == old(r)@ + b@.subrange(0, i as int),
        decreases b.len() - i,
    {
        r.push(b[i]);
        i = i + 1;
    }
}

/// `a + b` as a new vector.
pub fn concat(a: &Vec<char>, b: &Vec<char>) -> (r: Vec<char>)
    ensures
        r@ == a@ + b@,
{
    let mut r: Vec<char> = Vec::new();
    push_all(&mut r, a);
    push_all(&mut r, b);
    r
}

/// Character-wise equality.
pub fn eq_chars(a: &Vec<char>, b: &Vec<char>) -> (r: bool)
    ensures
        r == (a@ == b@),
{
    if a.len() != b.len() {
        return false;
    }
    let mut i: usize = 0;
    while i < a.len()
        invariant
            i <= a.len() == b.len(),
            forall|j: int| 0 <= j < i ==> a@[j] == b@[j],
        decreases a.len() - i,
    {
        if a[i] != b[i] {
            return false;
        }
        i = i + 1;
    }
    assert(a@ =~= b@);
    true
}

/// Whether `p` occurs in `s` at `i`.
pub fn matches_at_exec(s: &Vec<char>, p: &Vec<char>, i: usize) -> (r: bool)
    ensures
        r == matches_at(s@, p@, i as int),
{
    if i > s.len() || p.len() > s.len() - i {
        return false;
    }
    let mut k: usize = 0;
    while k < p.len()
        invariant
            i + p.len() <= s.len(),
            k <= p.len(),
            forall|j: int| 0 <= j < k ==> s@[i + j] == p@[j],
        decreases p.len() - k,
    {
        if s[i + k] != p[k] {
            assert(s@.subrange(i as int, i + p.len())[k as int] != p@[k as int]);
            return false;
        }
        k = k + 1;
    }
    assert(s@.subrange(i as int, i + p.len()) =~= p@);
    true
}

pub fn ends_with_exec(s: &Vec<char>, p: &Vec<char>) -> (r: bool)
    ensures
        r == ends_with(s@, p@),
{
    if p.len() > s.len() {
        return false;
    }
    matches_at_exec(s, p, s.len() - p.len())
}

pub fn starts_with_exec(s: &Vec<char>, p: &Vec<char>) -> (r: bool)
    ensures
        r == starts_with(s@, p@),
{
    matches_at_exec(s, p, 0)
}

/// Last position where `p` occurs in `s`.
pub fn rfind_exec(s: &Vec<char>, p: &Vec<char>) -> (r: Option<usize>)
    ensures
        match r {
            Some(i) => rfind(s@, p@) == Some(i as int),
            None => rfind(s@, p@) is None,
        },
{
    if p.len() > s.len() {
        assert(rfind_from(s@, p@, s@.len() - p@.len()) is None);
        return None;
    }
    let mut i: usize = s.len() - p.len();
    loop
        invariant
            i <= s.len() - p.len(),
            p.len() <= s.len(),
            rfind(s@, p@) == rfind_from(s@, p@, i as int),
        decreases i,
    {
        if matches_at_exec(s, p, i) {
            return Some(i);
        }
        if i == 0 {
            assert(rfind_from(s@, p@, -1) is None);
            return None;
        }
        i = i - 1;
    }
}

/// `s` lowercased (ASCII letters only).
pub fn lower_exec(s: &Vec<char>) -> (r: Vec<char>)
    ensures
        r@ == lower(s@),
{
    let mut r: Vec<char> = Vec::new();
    let mut i: usize = 0;
    while i < s.len()
        invariant
            i <= s.len(),
            r@ == lower(s@.subrange(0, i as int)),
        decreases s.len() - i,
    {
        r.push(lower_char_exec(s[i]));
        proof {
            assert(lower(s@.subrange(0, i + 1)) =~= lower(s@.subrange(0, i as int)).push(
                lower_char(s@[i as int]),
            ));
        }
        i = i + 1;
    }
    assert(s@.subrange(0, s.len() as int) =~= s@);
    r
}


pub fn is_digit_exec(c: char) -> (r: bool)
    ensures
        r == is_digit(c),
{
    '0' <= c && c <= '9'
}

pub fn all_digits_exec(s: &Vec<char>) -> (r: bool)
    ensures
        r == all_digits(s@),
{
    let mut i: usize = 0;
    while i < s.len()
        invariant
            i <= s.len(),
            forall|j: int| 0 <= j < i ==> is_digit(#[trigger] s@[j]),
        decreases s.len() - i,
    {
        if !is_digit_exec(s[i]) {
            return false;
        }
        i = i + 1;
    }
    true
}

/// Reads a non-empty string of decimal digits as a `usize`, as
/// `str::parse::<usize>` does: `None` when the number does not fit.
pub fn parse_usize(s: &Vec<char>) -> (r: Option<usize>)
    requires
        s.len() > 0,
        all_digits(s@),
    ensures
        match r {
            Some(v) => v as nat == digits_value(s@),
            None => digits_value(s@) > usize::MAX,
        },
{
    let mut v: usize = 0;
    let mut i: usize = 0;
    while i < s.len()
        invariant
            i <= s.len(),
            all_digits(s@),
            v as nat == digits_value(s@.subrange(0, i as int)),
        decreases s.len() - i,
    {
        assert(s@.subrange(0, i + 1).drop_last() =~= s@.subrange(0, i as int));
        assert(is_digit(s@[i as int]));
        let d: u32 = s[i] as u32 - 48;
        if v > (usize::MAX - d as usize) / 10 {
            proof {
                lemma_digits_value_prefix_monotone(s@, i + 1);
            }
            return None;
        }
        v = v * 10 + d as usize;
        i = i + 1;
    }
    assert(s@.subrange(0, s.len() as int) =~= s@);
    Some(v)
}

/// The value of a digit string is at least the value of any prefix of it.
pub proof fn lemma_digits_value_prefix_monotone(s: Seq<char>, k: int)
    requires
        0 <= k <= s.len(),
    ensures
        digits_value(s.subrange(0, k)) <= digits_value(s),
    decreases s.len() - k,
{
    if k < s.len() {
        lemma_digits_value_prefix_monotone(s, k + 1);
        assert(s.subrange(0, k + 1).drop_last() =~= s.subrange(0, k));
    } else {
        assert(s.subrange(0, k) =~= s);
    }
}

/// Decimal spelling of `n`.
pub fn decimal_exec(n: usize) -> (r: Vec<char>)
    ensures
        r@ == decimal(n as nat),
    decreases n,
{
    if n < 10 {
        let c: char = ((n as u8) + 48) as char;
        vec![c]
    } else {
        let mut r = decimal_exec(n / 10);
        let c: char = (((n % 10) as u8) + 48) as char;
        r.push(c);
        r
    }
}

/// `format!("{n:0width$}")` as characters.
pub fn padded_exec(n: usize, width: usize) -> (r: Vec<char>)
    ensures
        r@ == padded(n as nat, width as nat),
{
    let d = decimal_exec(n);
    if d.len() < width {
        let mut r: Vec<char> = Vec::new();
        let k: usize = width - d.len();
        let mut i: usize = 0;
        while i < k
            invariant
                i <= k,
                r@ == zeros(i as nat),
            decreases k - i,
        {
            r.push('0');
            i = i + 1;
            assert(r@ =~= zeros(i as nat));
        }
        push_all(&mut r, &d);
        r
    } else {
        d
    }
}


/// A number below `10^w` prints in at most `w` digits.
pub proof fn lemma_decimal_len(n: nat, w: nat)
    requires
        w >= 1,
        n < pow10(w),
    ensures
        decimal(n).len() <= w,
    decreases n,
{
    if n >= 10 {
        assert(w >= 2) by {
            if w == 1 {
                assert(pow10(1) == pow10(0) * 10);
            }
        }
        assert(pow10(w) == pow10((w - 1) as nat) * 10);
        assert(n / 10 < pow10((w - 1) as nat)) by (nonlinear_arith)
            requires
                n < pow10((w - 1) as nat) * 10,
        ;
        lemma_decimal_len(n / 10, (w - 1) as nat);
    }
}

/// The last dot of `x.ddd` (digits after it) is the one before the digits.
pub proof fn lemma_rfind_dot(x: Seq<char>, d: Seq<char>)
    requires
        all_digits(d),
    ensures
        rfind(x + seq!['.'] + d, seq!['.']) == Some(x.len() as int),
{
    let s = x + seq!['.'] + d;
    let dot = seq!['.'];
    assert(s.subrange(x.len() as int, x.len() + 1int) =~= dot);
    assert(matches_at(s, dot, x.len() as int));
    lemma_rfind_from(s, dot, s.len() - 1);
    match rfind_from(s, dot, s.len() - 1) {
        Some(r) => {
            if r > x.len() {
                assert(s.subrange(r, r + 1)[0] == s[r]);
                assert(s[r] == d[r - x.len() - 1]);
                assert(is_digit(d[r - x.len() - 1]));
            }
        },
        None => {},
    }
}


/// The last occurrence of a mark that starts with `.` (and has no other
/// dot) in `x + mark + t`, where `t` has no dot, is right after `x`.
pub proof fn lemma_rfind_mark(x: Seq<char>, m: Seq<char>, t: Seq<char>)
    requires
        m.len() >= 1,
        m[0] == '.',
        forall|j: int| 1 <= j < m.len() ==> m[j] != '.',
        forall|j: int| 0 <= j < t.len() ==> t[j] != '.',
    ensures
        rfind(x + m + t, m) == Some(x.len() as int),
{
    let s = x + m + t;
    assert(s.subrange(x.len() as int, (x.len() + m.len()) as int) =~= m);
    assert(matches_at(s, m, x.len() as int));
    lemma_rfind_from(s, m, s.len() - m.len());
    match rfind_from(s, m, s.len() - m.len()) {
        Some(r) => {
            if r > x.len() {
                assert(s.subrange(r, r + m.len())[0] == s[r]);
                if r < x.len() + m.len() {
                    assert(s[r] == m[r - x.len()]);
                } else {
                    assert(s[r] == t[r - x.len() - m.len()]);
                }
            }
        },
        None => {},
    }
}

pub proof fn lemma_lower_concat(a: Seq<char>, b: Seq<char>)
    ensures
        lower(a + b) == lower(a) + lower(b),
{
    assert(lower(a + b) =~= lower(a) + lower(b));
}

/// Lowercasing leaves a sequence without ASCII capitals unchanged.
pub proof fn lemma_lower_fixed(a: Seq<char>)
    requires
        forall|i: int| 0 <= i < a.len() ==> !is_ascii_upper(#[trigger] a[i]),
    ensures
        lower(a) == a,
{
    assert(lower(a) =~= a);
}

/// Digits have no capitals and no dot.
pub proof fn lemma_digits_plain(d: Seq<char>)
    requires
        all_digits(d),
    ensures
        forall|i: int| 0 <= i < d.len() ==> !is_ascii_upper(#[trigger] d[i]) && d[i] != '.',
{
    assert forall|i: int| 0 <= i < d.len() implies !is_ascii_upper(#[trigger] d[i]) && d[i] != '.' by {
        assert(is_digit(d[i]));
    }
}

} // verus!
