//! Byte-level scanning of the text that the diagnostic tool and the sensor
//! files produce: trimming, searching, prefixes and number literals.
use vstd::prelude::*;
use vstd::string::StringSliceAdditionalSpecFns;

verus! {

/// ASCII whitespace: space, tab, line feed, vertical tab, form feed, carriage return.
pub open spec fn is_space(c: u8) -> bool {
    c == 32 || (9 <= c && c <= 13)
}

pub open spec fn space() -> spec_fn(u8) -> bool {
    |c: u8| is_space(c)
}

pub open spec fn non_space() -> spec_fn(u8) -> bool {
    |c: u8| !is_space(c)
}

pub open spec fn byte_eq(t: u8) -> spec_fn(u8) -> bool {
    |c: u8| c == t
}

/// Index of the first byte of `s` that satisfies `p`, or `s.len()` if none does.
pub open spec fn first_index(s: Seq<u8>, p: spec_fn(u8) -> bool) -> nat
    decreases s.len(),
{
    if s.len() == 0 {
        0
    } else if p(s[0]) {
        0
    } else {
        1 + first_index(s.drop_first(), p)
    }
}

/// Length of `s` once every trailing byte that satisfies `p` is dropped.
pub open spec fn keep_len(s: Seq<u8>, p: spec_fn(u8) -> bool) -> nat
    decreases s.len(),
{
    if s.len() == 0 {
        0
    } else if p(s.last()) {
        keep_len(s.drop_last(), p)
    } else {
        s.len()
    }
}

/// Index of the last occurrence of `c` in `s`, or -1.
pub open spec fn last_index_of(s: Seq<u8>, c: u8) -> int
    decreases s.len(),
{
    if s.len() == 0 {
        -1
    } else if s.last() == c {
        s.len() - 1
    } else {
        last_index_of(s.drop_last(), c)
    }
}

pub open spec fn trim_start(s: Seq<u8>) -> Seq<u8> {
    s.skip(first_index(s, non_space()) as int)
}

pub open spec fn trim_end_by(s: Seq<u8>, p: spec_fn(u8) -> bool) -> Seq<u8> {
    s.take(keep_len(s, p) as int)
}

/// `s` without leading and trailing whitespace.
pub open spec fn trim(s: Seq<u8>) -> Seq<u8> {
    trim_end_by(trim_start(s), space())
}

pub open spec fn has_prefix(s: Seq<u8>, p: Seq<u8>) -> bool {
    p.len() <= s.len() && s.take(p.len() as int) =~= p
}

pub open spec fn has_suffix(s: Seq<u8>, p: Seq<u8>) -> bool {
    p.len() <= s.len() && s.skip(s.len() - p.len()) =~= p
}

/// Value of a digit in bases up to 16, or 16 for a byte that is no digit.
pub open spec fn digit_val(c: u8) -> nat {
    if 48 <= c && c <= 57 {
        (c - 48) as nat
    } else if 97 <= c && c <= 102 {
        (c - 87) as nat
    } else if 65 <= c && c <= 70 {
        (c - 55) as nat
    } else {
        16
    }
}

pub open spec fn all_digits(s: Seq<u8>, radix: nat) -> bool {
    forall|i: int| 0 <= i < s.len() ==> #[trigger] digit_val(s[i]) < radix
}

/// The number that the digits of `s` spell in base `radix`, most significant first.
pub open spec fn digits_value(s: Seq<u8>, radix: nat) -> nat
    decreases s.len(),
{
    if s.len() == 0 {
        0
    } else {
        digits_value(s.drop_last(), radix) * radix + digit_val(s.last())
    }
}

/// A non-empty run of digits in base `radix` whose value is at most `max`.
pub open spec fn natural(s: Seq<u8>, radix: nat, max: nat) -> Option<nat> {
    if s.len() > 0 && all_digits(s, radix) && digits_value(s, radix) <= max {
        Some(digits_value(s, radix))
    } else {
        None
    }
}

pub proof fn lemma_keep_len_bound(s: Seq<u8>, p: spec_fn(u8) -> bool)
    ensures
        keep_len(s, p) <= s.len(),
    decreases s.len(),
{
    if s.len() > 0 {
        lemma_keep_len_bound(s.drop_last(), p);
    }
}

pub proof fn lemma_first_index(s: Seq<u8>, p: spec_fn(u8) -> bool, k: int)
    requires
        0 <= k <= s.len(),
        forall|j: int| 0 <= j < k ==> !p(#[trigger] s[j]),
        k == s.len() || p(s[k]),
    ensures
        first_index(s, p) == k,
    decreases k,
{
    if k > 0 {
        assert forall|j: int| 0 <= j < k - 1 implies !p(#[trigger] s.drop_first()[j]) by {
            assert(s.drop_first()[j] == s[j + 1]);
        }
        lemma_first_index(s.drop_first(), p, k - 1);
    }
}

pub proof fn lemma_keep_len(s: Seq<u8>, p: spec_fn(u8) -> bool, k: int)
    requires
        0 <= k <= s.len(),
        forall|j: int| k <= j < s.len() ==> p(#[trigger] s[j]),
        k == 0 || !p(s[k - 1]),
    ensures
        keep_len(s, p) == k,
    decreases s.len(),
{
    if s.len() > k {
        assert forall|j: int| k <= j < s.len() - 1 implies p(#[trigger] s.drop_last()[j]) by {
            assert(s.drop_last()[j] == s[j]);
        }
        lemma_keep_len(s.drop_last(), p, k);
    }
}

pub proof fn lemma_last_index_of(s: Seq<u8>, c: u8, k: int)
    requires
        -1 <= k < s.len(),
        forall|j: int| k < j < s.len() ==> #[trigger] s[j] != c,
        k == -1 || s[k] == c,
    ensures
        last_index_of(s, c) == k,
    decreases s.len(),
{
    if s.len() > 0 && k < s.len() - 1 {
        assert forall|j: int| k < j < s.len() - 1 implies #[trigger] s.drop_last()[j] != c by {
            assert(s.drop_last()[j] == s[j]);
        }
        lemma_last_index_of(s.drop_last(), c, k);
    }
}

/// Index of the first byte in `b[lo..hi]` equal to `t`, or `hi`.
pub fn find_byte(b: &[u8], lo: usize, hi: usize, t: u8) -> (r: usize)
    requires
        lo <= hi <= b@.len(),
    ensures
        r == lo + first_index(b@.subrange(lo as int, hi as int), byte_eq(t)),
        lo <= r <= hi,
{
    let mut i: usize = lo;
    while i < hi && b[i] != t
        invariant
            lo <= i <= hi <= b@.len(),
            forall|j: int| lo <= j < i ==> b@[j] != t,
        decreases hi - i,
    {
        i = i + 1;
    }
    proof {
        let s = b@.subrange(lo as int, hi as int);
        assert forall|j: int| 0 <= j < i - lo implies !byte_eq(t)(#[trigger] s[j]) by {
            assert(s[j] == b@[lo + j]);
        }
        lemma_first_index(s, byte_eq(t), i - lo);
    }
    i
}

/// Index of the first byte in `b[lo..hi]` that is (or, with `want` false,
/// is not) whitespace, or `hi`.
pub fn find_space(b: &[u8], lo: usize, hi: usize, want: bool) -> (r: usize)
    requires
        lo <= hi <= b@.len(),
    ensures
        r == lo + first_index(
            b@.subrange(lo as int, hi as int),
            if want { space() } else { non_space() },
        ),
        lo <= r <= hi,
{
    let ghost p = if want { space() } else { non_space() };
    let mut i: usize = lo;
    while i < hi && (is_space_byte(b[i]) != want)
        invariant
            lo <= i <= hi <= b@.len(),
            p == (if want { space() } else { non_space() }),
            forall|j: int| lo <= j < i ==> !p(b@[j]),
        decreases hi - i,
    {
        i = i + 1;
    }
    proof {
        let s = b@.subrange(lo as int, hi as int);
        assert forall|j: int| 0 <= j < i - lo implies !p(#[trigger] s[j]) by {
            assert(s[j] == b@[lo + j]);
        }
        lemma_first_index(s, p, i - lo);
    }
    i
}

pub fn is_space_byte(c: u8) -> (r: bool)
    ensures
        r == is_space(c),
{
    c == 32 || (9 <= c && c <= 13)
}

fn trailing_match(c: u8, unit: Option<u8>) -> (r: bool)
    ensures
        r == (match unit {
            Some(u) => byte_eq(u),
            None => space(),
        })(c),
{
    match unit {
        Some(u) => c == u,
        None => is_space_byte(c),
    }
}

/// End of `b[lo..hi]` once trailing whitespace (or, with `unit` given, trailing
/// copies of that byte) is dropped.
pub fn trim_end_at(b: &[u8], lo: usize, hi: usize, unit: Option<u8>) -> (r: usize)
    requires
        lo <= hi <= b@.len(),
    ensures
        r == lo + keep_len(
            b@.subrange(lo as int, hi as int),
            match unit {
                Some(u) => byte_eq(u),
                None => space(),
            },
        ),
        lo <= r <= hi,
{
    let ghost p = match unit {
        Some(u) => byte_eq(u),
        None => space(),
    };
    let mut k: usize = hi;
    while k > lo && trailing_match(b[k - 1], unit)
        invariant
            lo <= k <= hi <= b@.len(),
            p == (match unit {
                Some(u) => byte_eq(u),
                None => space(),
            }),
            forall|j: int| k <= j < hi ==> p(b@[j]),
        decreases k,
    {
        k = k - 1;
    }
    proof {
        let s = b@.subrange(lo as int, hi as int);
        assert forall|j: int| k - lo <= j < s.len() implies p(#[trigger] s[j]) by {
            assert(s[j] == b@[lo + j]);
        }
        lemma_keep_len(s, p, k - lo);
    }
    k
}

/// The range of `b[lo..hi]` without leading and trailing whitespace.
pub fn trim_range(b: &[u8], lo: usize, hi: usize) -> (r: (usize, usize))
    requires
        lo <= hi <= b@.len(),
    ensures
        lo <= r.0 <= r.1 <= hi,
        b@.subrange(r.0 as int, r.1 as int) == trim(b@.subrange(lo as int, hi as int)),
{
    let start = find_space(b, lo, hi, false);
    let end = trim_end_at(b, start, hi, None);
    proof {
        let s = b@.subrange(lo as int, hi as int);
        assert(trim_start(s) =~= b@.subrange(start as int, hi as int));
        assert(b@.subrange(start as int, end as int) =~= trim(s));
    }
    (start, end)
}

/// Index of the last `c` in `b[lo..hi]`.
pub fn rfind_byte(b: &[u8], lo: usize, hi: usize, c: u8) -> (r: Option<usize>)
    requires
        lo <= hi <= b@.len(),
    ensures
        match r {
            Some(k) => lo <= k < hi && k - lo == last_index_of(
                b@.subrange(lo as int, hi as int),
                c,
            ),
            None => last_index_of(b@.subrange(lo as int, hi as int), c) == -1,
        },
{
    let mut k: usize = hi;
    while k > lo && b[k - 1] != c
        invariant
            lo <= k <= hi <= b@.len(),
            forall|j: int| k <= j < hi ==> b@[j] != c,
        decreases k,
    {
        k = k - 1;
    }
    let ghost s = b@.subrange(lo as int, hi as int);
    proof {
        assert forall|j: int| k - 1 - lo < j < s.len() implies #[trigger] s[j] != c by {
            assert(s[j] == b@[lo + j]);
        }
        if k > lo {
            assert(s[k - 1 - lo] == b@[k - 1]);
        }
        lemma_last_index_of(s, c, k - 1 - lo);
    }
    if k > lo {
        Some(k - 1)
    } else {
        None
    }
}

/// Whether `b[lo..hi]` starts with the bytes of `p`.
pub fn starts_with(b: &[u8], lo: usize, hi: usize, p: &str) -> (r: bool)
    requires
        lo <= hi <= b@.len(),
    ensures
        r == has_prefix(b@.subrange(lo as int, hi as int), p.spec_bytes()),
{
    let pb = p.as_bytes();
    if pb.len() > hi - lo {
        return false;
    }
    let mut i: usize = 0;
    while i < pb.len()
        invariant
            pb@ == p.spec_bytes(),
            pb@.len() <= hi - lo,
            lo <= hi <= b@.len(),
            i <= pb@.len(),
            forall|j: int| 0 <= j < i ==> b@[lo + j] == pb@[j],
        decreases pb@.len() - i,
    {
        if b[lo + i] != pb[i] {
            proof {
                let s = b@.subrange(lo as int, hi as int);
                assert(s.take(pb@.len() as int)[i as int] != pb@[i as int]);
            }
            return false;
        }
        i = i + 1;
    }
    proof {
        let s = b@.subrange(lo as int, hi as int);
        assert(s.take(pb@.len() as int) =~= pb@);
    }
    true
}

/// Whether `b[lo..hi]` ends with the bytes of `p`.
pub fn ends_with(b: &[u8], lo: usize, hi: usize, p: &str) -> (r: bool)
    requires
        lo <= hi <= b@.len(),
    ensures
        r == has_suffix(b@.subrange(lo as int, hi as int), p.spec_bytes()),
{
    let pb = p.as_bytes();
    if pb.len() > hi - lo {
        return false;
    }
    let start = hi - pb.len();
    let r = starts_with(b, start, hi, p);
    proof {
        let s = b@.subrange(lo as int, hi as int);
        assert(s.skip(s.len() - pb@.len()) =~= b@.subrange(start as int, hi as int));
        assert(b@.subrange(start as int, hi as int).take(pb@.len() as int)
            =~= b@.subrange(start as int, hi as int));
    }
    r
}

pub fn digit_of(c: u8) -> (r: u64)
    ensures
        r == digit_val(c),
{
    if 48 <= c && c <= 57 {
        (c - 48) as u64
    } else if 97 <= c && c <= 102 {
        (c - 87) as u64
    } else if 65 <= c && c <= 70 {
        (c - 55) as u64
    } else {
        16
    }
}

proof fn lemma_digits_step(s: Seq<u8>, k: int, radix: nat)
    requires
        0 <= k < s.len(),
    ensures
        digits_value(s.take(k + 1), radix) == digits_value(s.take(k), radix) * radix
            + digit_val(s[k]),
{
    assert(s.take(k + 1).drop_last() =~= s.take(k));
}

/// Parses `b[lo..hi]` as a run of digits in base `radix` worth at most `max`.
pub fn parse_natural(b: &[u8], lo: usize, hi: usize, radix: u64, max: u64) -> (r: Option<u64>)
    requires
        lo <= hi <= b@.len(),
        2 <= radix <= 16,
        max < 0x1000_0000_0000_0000,
    ensures
        match natural(b@.subrange(lo as int, hi as int), radix as nat, max as nat) {
            Some(v) => r == Some(v as u64),
            None => r.is_none(),
        },
{
    let ghost s = b@.subrange(lo as int, hi as int);
    let cap: u64 = max + 1;
    let mut acc: u64 = 0;
    let mut i: usize = lo;
    while i < hi
        invariant
            lo <= i <= hi <= b@.len(),
            s == b@.subrange(lo as int, hi as int),
            2 <= radix <= 16,
            cap == max + 1,
            max < 0x1000_0000_0000_0000,
            all_digits(s.take(i - lo), radix as nat),
            acc == if digits_value(s.take(i - lo), radix as nat) > max {
                cap as nat
            } else {
                digits_value(s.take(i - lo), radix as nat)
            },
        decreases hi - i,
    {
        let d = digit_of(b[i]);
        assert(s[i - lo] == b@[i as int]);
        if d >= radix {
            proof {
                assert(!all_digits(s, radix as nat)) by {
                    assert(digit_val(s[i - lo]) >= radix);
                }
            }
            return None;
        }
        proof {
            lemma_digits_step(s, i - lo, radix as nat);
            assert forall|j: int| 0 <= j < i + 1 - lo implies #[trigger] digit_val(
                s.take(i + 1 - lo)[j],
            ) < radix by {
                if j < i - lo {
                    assert(s.take(i + 1 - lo)[j] == s.take(i - lo)[j]);
                }
            }
            let v = digits_value(s.take(i - lo), radix as nat);
            if v > max {
                assert(v * radix >= v) by (nonlinear_arith)
                    requires radix >= 2;
            } else {
                assert(v * radix <= max * 16) by (nonlinear_arith)
                    requires v <= max, radix <= 16;
            }
        }
        if acc == cap {
            acc = cap;
        } else {
            let next = acc * radix + d;
            acc = if next > max { cap } else { next };
        }
        i = i + 1;
    }
    proof {
        assert(s.take(hi - lo) =~= s);
    }
    if hi == lo || acc > max {
        None
    } else {
        Some(acc)
    }
}

pub open spec fn pow10(n: nat) -> nat
    decreases n,
{
    if n == 0 {
        1
    } else {
        10 * pow10((n - 1) as nat)
    }
}

proof fn lemma_pow10_mono(a: nat, b: nat)
    requires
        a <= b,
    ensures
        pow10(a) <= pow10(b),
    decreases b,
{
    if a < b {
        lemma_pow10_mono(a, (b - 1) as nat);
    }
}

/// The first nine digits of a fraction, padded with zeros.
pub open spec fn nine_digits(f: Seq<u8>) -> Seq<u8> {
    Seq::new(9, |k: int| if k < f.len() { f[k] } else { 48u8 })
}

/// Parts of a decimal literal `<digits>[.<digits>]`: the integer digits and the
/// fraction digits.
pub open spec fn decimal_int(s: Seq<u8>) -> Seq<u8> {
    s.take(first_index(s, byte_eq(46u8)) as int)
}

pub open spec fn decimal_frac(s: Seq<u8>) -> Seq<u8> {
    let d = first_index(s, byte_eq(46u8)) as int;
    if d < s.len() {
        s.skip(d + 1)
    } else {
        Seq::empty()
    }
}

/// A decimal literal `<digits>[.<digits>]` with at least one digit, read in
/// billionths (rounded down), if that count fits in a `u64`.
pub open spec fn decimal_nanos(s: Seq<u8>) -> Option<nat> {
    let i = decimal_int(s);
    let f = decimal_frac(s);
    let v = digits_value(i, 10) * 1_000_000_000 + digits_value(nine_digits(f), 10);
    if i.len() + f.len() > 0 && all_digits(i, 10) && all_digits(f, 10) && v <= u64::MAX {
        Some(v)
    } else {
        None
    }
}

/// Whether every byte of `b[lo..hi]` is a decimal digit.
fn all_decimal(b: &[u8], lo: usize, hi: usize) -> (r: bool)
    requires
        lo <= hi <= b@.len(),
    ensures
        r == all_digits(b@.subrange(lo as int, hi as int), 10),
{
    let mut i: usize = lo;
    while i < hi
        invariant
            lo <= i <= hi <= b@.len(),
            forall|j: int| lo <= j < i ==> #[trigger] digit_val(b@[j]) < 10,
        decreases hi - i,
    {
        if digit_of(b[i]) >= 10 {
            assert(b@.subrange(lo as int, hi as int)[i - lo] == b@[i as int]);
            return false;
        }
        i = i + 1;
    }
    assert forall|j: int| 0 <= j < hi - lo implies #[trigger] digit_val(
        b@.subrange(lo as int, hi as int)[j],
    ) < 10 by {
        assert(b@.subrange(lo as int, hi as int)[j] == b@[lo + j]);
    }
    true
}

/// Reads `b[lo..hi]` as a decimal literal in billionths of its unit.
pub fn parse_decimal_nanos(b: &[u8], lo: usize, hi: usize) -> (r: Option<u64>)
    requires
        lo <= hi <= b@.len(),
    ensures
        match decimal_nanos(b@.subrange(lo as int, hi as int)) {
            Some(v) => r == Some(v as u64),
            None => r.is_none(),
        },
{
    let ghost s = b@.subrange(lo as int, hi as int);
    let d = find_byte(b, lo, hi, 46u8);
    let fs: usize = if d < hi { d + 1 } else { hi };
    proof {
        assert(decimal_int(s) =~= b@.subrange(lo as int, d as int));
        if d < hi {
            assert(s[d - lo] == b@[d as int]);
        }
        assert(decimal_frac(s) =~= b@.subrange(fs as int, hi as int));
    }
    let ghost f = b@.subrange(fs as int, hi as int);
    if d == lo && fs == hi {
        return None;
    }
    if !all_decimal(b, fs, hi) {
        return None;
    }
    let whole: u64 = if d == lo {
        0
    } else {
        match parse_natural(b, lo, d, 10, 18_446_744_073) {
            Some(v) => v,
            None => {
                proof {
                    let i = b@.subrange(lo as int, d as int);
                    if all_digits(i, 10) {
                        assert(digits_value(i, 10) * 1_000_000_000 > u64::MAX) by (nonlinear_arith)
                            requires digits_value(i, 10) > 18_446_744_073;
                    }
                }
                return None;
            },
        }
    };
    let mut acc: u64 = 0;
    let mut k: usize = 0;
    proof {
        lemma_pow10_mono(0, 9);
        reveal_with_fuel(pow10, 10);
        assert(pow10(9) == 1_000_000_000);
    }
    while k < 9
        invariant
            lo <= d <= hi <= b@.len(),
            fs <= hi,
            f == b@.subrange(fs as int, hi as int),
            k <= 9,
            pow10(9) == 1_000_000_000,
            acc == digits_value(nine_digits(f).take(k as int), 10),
            acc < pow10(k as nat),
            all_digits(f, 10),
        decreases 9 - k,
    {
        let c: u8 = if k < hi - fs { b[fs + k] } else { 48u8 };
        proof {
            assert(nine_digits(f)[k as int] == c);
            lemma_digits_step(nine_digits(f), k as int, 10);
            lemma_pow10_mono((k + 1) as nat, 9);
            if k < hi - fs {
                assert(f[k as int] == c);
            }
            assert(digit_val(c) < 10);
            assert(acc * 10 + digit_val(c) < pow10((k + 1) as nat)) by (nonlinear_arith)
                requires
                    acc < pow10(k as nat),
                    digit_val(c) < 10,
                    pow10((k + 1) as nat) == 10 * pow10(k as nat),
            ;
        }
        acc = acc * 10 + digit_of(c);
        k = k + 1;
    }
    proof {
        assert(nine_digits(f).take(9) =~= nine_digits(f));
    }
    let total: u128 = whole as u128 * 1_000_000_000u128 + acc as u128;
    if total > 0xFFFF_FFFF_FFFF_FFFFu128 {
        None
    } else {
        Some(total as u64)
    }
}

} // verus!
