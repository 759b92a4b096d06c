//! Decoding of the throttle status word that the diagnostic tool reports.
//!
//! | Bit | Meaning                             |
//! | :-: | ----------------------------------- |
//! |  0  | Under-voltage detected              |
//! |  1  | Arm frequency capped                |
//! |  2  | Currently throttled                 |
//! |  3  | Soft temperature limit active       |
//! | 16  | Under-voltage has occurred          |
//! | 17  | Arm frequency capped has occurred   |
//! | 18  | Throttling has occurred             |
//! | 19  | Soft temperature limit has occurred |
//!
//! Every other bit is reserved and ignored.
use vstd::prelude::*;
use vstd::string::StringSliceAdditionalSpecFns;

use crate::error::Error;
use crate::text::{
    first_index, has_prefix, lemma_keep_len_bound, is_space, keep_len, natural, non_space, parse_natural, space,
    starts_with, trim, trim_end_by, trim_range, trim_start,
};

verus! {

broadcast use vstd::string::is_ascii_spec_bytes;

/// The four conditions that one half of the status word reports.
#[derive(Debug, Clone, Copy, PartialEq, Eq)]
pub struct InnerThrottleStatus {
    pub under_voltage: bool,
    pub arm_frequency_capped: bool,
    pub throttled: bool,
    pub soft_temp_limit: bool,
}

/// The conditions in force now (`current`) and those seen since the last
/// reset (`happened`).
#[derive(Debug, Clone, Copy, PartialEq, Eq)]
pub struct ThrottleStatus {
    pub current: InnerThrottleStatus,
    pub happened: InnerThrottleStatus,
}

pub open spec fn bit(word: u32, n: u32) -> bool {
    (word >> n) & 1u32 == 1u32
}

/// The four flags stored at bits `base` to `base + 3` of `word`.
pub open spec fn flags_at(word: u32, base: u32) -> InnerThrottleStatus {
    InnerThrottleStatus {
        under_voltage: bit(word, base),
        arm_frequency_capped: bit(word, (base + 1) as u32),
        throttled: bit(word, (base + 2) as u32),
        soft_temp_limit: bit(word, (base + 3) as u32),
    }
}

pub open spec fn decoded(word: u32) -> ThrottleStatus {
    ThrottleStatus { current: flags_at(word, 0), happened: flags_at(word, 16) }
}

/// The hexadecimal digits of a status word in text: surrounding whitespace,
/// then a `throttled=` prefix, then a `0x` or `0X` prefix are dropped when present.
pub open spec fn status_digits(s: Seq<u8>) -> Seq<u8> {
    let t = trim(s);
    let t1 = if has_prefix(t, "throttled=".spec_bytes()) {
        t.skip("throttled=".spec_bytes().len() as int)
    } else {
        t
    };
    if has_prefix(t1, "0x".spec_bytes()) {
        t1.skip("0x".spec_bytes().len() as int)
    } else if has_prefix(t1, "0X".spec_bytes()) {
        t1.skip("0X".spec_bytes().len() as int)
    } else {
        t1
    }
}

/// The status word that the text `s` spells, if its digits are valid
/// hexadecimal and fit in 32 bits.
pub open spec fn status_word(s: Seq<u8>) -> Option<u32> {
    match natural(status_digits(s), 16, 0xFFFF_FFFF) {
        Some(v) => Some(v as u32),
        None => None,
    }
}

/// Whether bit `bit` of `input` is set.
pub fn bit_is_set(input: u32, bit: u32) -> (r: bool)
    requires
        bit < 32,
    ensures
        r == ((input >> bit) & 1u32 == 1u32),
{
    let r = (input & (1u32 << bit)) != 0;
    assert(((input & (1u32 << bit)) != 0) == ((input >> bit) & 1u32 == 1u32)) by (bit_vector)
        requires
            bit < 32,
    ;
    r
}

impl InnerThrottleStatus {
    fn from_bits(word: u32, base: u32) -> (r: InnerThrottleStatus)
        requires
            base <= 28,
        ensures
            r == flags_at(word, base),
    {
        InnerThrottleStatus {
            under_voltage: bit_is_set(word, base),
            arm_frequency_capped: bit_is_set(word, base + 1),
            throttled: bit_is_set(word, base + 2),
            soft_temp_limit: bit_is_set(word, base + 3),
        }
    }
}

impl ThrottleStatus {
    /// Splits a status word into its current and sticky flags.
    pub fn from_word(word: u32) -> (r: ThrottleStatus)
        ensures
            r == decoded(word),
    {
        ThrottleStatus {
            current: InnerThrottleStatus::from_bits(word, 0),
            happened: InnerThrottleStatus::from_bits(word, 16),
        }
    }

    /// Reads the tool's throttle report, such as `throttled=0x50005`.
    pub fn new(output: &str) -> (r: Result<ThrottleStatus, Error>)
        ensures
            match status_word(output.spec_bytes()) {
                Some(w) => r == Ok::<ThrottleStatus, Error>(decoded(w)),
                None => r == Err::<ThrottleStatus, Error>(Error::MalformedStatusWord),
            },
    {
        let b = output.as_bytes();
        let ghost s = b@;
        let (lo, hi) = trim_range(b, 0, b.len());
        assert(s.subrange(0, s.len() as int) =~= s);
        let ghost t = s.subrange(lo as int, hi as int);
        let name = "throttled=";
        let mut start = lo;
        if starts_with(b, lo, hi, name) {
            start = lo + name.len();
            assert(t.skip(name.spec_bytes().len() as int) =~= s.subrange(start as int, hi as int));
        }
        let ghost t1 = s.subrange(start as int, hi as int);
        let lower = "0x";
        let upper = "0X";
        if starts_with(b, start, hi, lower) {
            assert(t1.skip(lower.spec_bytes().len() as int) =~= s.subrange(
                (start + lower.len()) as int,
                hi as int,
            ));
            start = start + lower.len();
        } else if starts_with(b, start, hi, upper) {
            assert(t1.skip(upper.spec_bytes().len() as int) =~= s.subrange(
                (start + upper.len()) as int,
                hi as int,
            ));
            start = start + upper.len();
        }
        assert(s.subrange(start as int, hi as int) == status_digits(s));
        match parse_natural(b, start, hi, 16, 0xFFFF_FFFF) {
            Some(w) => Ok(ThrottleStatus::from_word(w as u32)),
            None => Err(Error::MalformedStatusWord),
        }
    }
}

proof fn lemma_keep_len_after(p: Seq<u8>, h: Seq<u8>)
    requires
        p.len() > 0,
        !is_space(p.last()),
    ensures
        keep_len(p + h, space()) == p.len() + keep_len(h, space()),
    decreases h.len(),
{
    if h.len() == 0 {
        assert(p + h =~= p);
    } else {
        assert((p + h).drop_last() =~= p + h.drop_last());
        lemma_keep_len_after(p, h.drop_last());
    }
}

/// Trimming text that starts with a non-blank prefix `p` only trims the rest
/// at its end.
proof fn lemma_trim_after(p: Seq<u8>, h: Seq<u8>)
    requires
        p.len() > 0,
        !is_space(p[0]),
        !is_space(p.last()),
    ensures
        trim(p + h) == p + trim_end_by(h, space()),
{
    assert(!non_space()((p + h)[0]) == false);
    assert(first_index(p + h, non_space()) == 0);
    assert(trim_start(p + h) =~= p + h);
    lemma_keep_len_after(p, h);
    lemma_keep_len_bound(h, space());
    assert(trim(p + h) == trim_end_by(p + h, space()));
    assert((p + h).take((p.len() + keep_len(h, space())) as int) =~= p + h.take(
        keep_len(h, space()) as int,
    ));
}

/// A status word reads the same with a `throttled=0x` prefix, a `0x` prefix or
/// a `0X` prefix.
pub proof fn lemma_prefix_tolerance(h: Seq<u8>)
    ensures
        status_word("throttled=0x".spec_bytes() + h) == status_word("0x".spec_bytes() + h),
        status_word("0X".spec_bytes() + h) == status_word("0x".spec_bytes() + h),
{
    reveal_strlit("throttled=0x");
    reveal_strlit("throttled=");
    reveal_strlit("0x");
    reveal_strlit("0X");
    assert(vstd::string::is_ascii("throttled=0x"));
    assert(vstd::string::is_ascii("throttled="));
    assert(vstd::string::is_ascii("0x"));
    assert(vstd::string::is_ascii("0X"));
    let full = "throttled=0x".spec_bytes();
    let name = "throttled=".spec_bytes();
    let lower = "0x".spec_bytes();
    let upper = "0X".spec_bytes();
    assert(full =~= seq![116u8, 104, 114, 111, 116, 116, 108, 101, 100, 61, 48, 120]);
    assert(name =~= seq![116u8, 104, 114, 111, 116, 116, 108, 101, 100, 61]);
    assert(lower =~= seq![48u8, 120]);
    assert(upper =~= seq![48u8, 88]);
    let e = trim_end_by(h, space());
    lemma_trim_after(full, h);
    lemma_trim_after(lower, h);
    lemma_trim_after(upper, h);
    let tf = full + e;
    let tl = lower + e;
    let tu = upper + e;
    assert(has_prefix(tf, name)) by {
        assert(tf.take(name.len() as int) =~= name);
    }
    assert(tf.skip(name.len() as int) =~= tl);
    assert(!has_prefix(tl, name)) by {
        if name.len() <= tl.len() {
            assert(tl.take(name.len() as int)[0] != name[0]);
        }
    }
    assert(!has_prefix(tu, name)) by {
        if name.len() <= tu.len() {
            assert(tu.take(name.len() as int)[0] != name[0]);
        }
    }
    assert(has_prefix(tl, lower)) by {
        assert(tl.take(2) =~= lower);
    }
    assert(!has_prefix(tu, lower)) by {
        assert(tu.take(2)[1] != lower[1]);
    }
    assert(has_prefix(tu, upper)) by {
        assert(tu.take(2) =~= upper);
    }
    assert(tl.skip(2) =~= e);
    assert(tu.skip(2) =~= e);
    assert(status_digits(full + h) == e);
    assert(status_digits(lower + h) == e);
    assert(status_digits(upper + h) == e);
}

} // verus!
