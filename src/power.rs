//! Power rails and throttle state, read from the diagnostic tool's answers.
//!
//! Voltages and currents are held in billionths of a volt and of an ampere,
//! so a rail's power is in billionths of billionths of a watt (1e-18 W).
use vstd::prelude::*;
use vstd::string::StringSliceAdditionalSpecFns;

use crate::error::{is_parse_command, Error};
use crate::text::{
    byte_eq, decimal_nanos, find_byte, find_space, first_index, last_index_of, non_space,
    parse_decimal_nanos, rfind_byte, space, trim_end_at, trim_end_by, trim_start,
};
use crate::throttle::{decoded, status_word, ThrottleStatus};

verus! {

/// One power rail: its name, its voltage and its current.
#[derive(Debug, PartialEq, Eq)]
pub struct PowerMeasure {
    pub measure: Vec<u8>,
    /// Billionths of a volt.
    pub volts: u64,
    /// Billionths of an ampere.
    pub amps: u64,
}

/// The rails, sorted by name with no name twice, and their summed power.
#[derive(Debug, PartialEq, Eq)]
pub struct Power {
    pub power_map: Vec<PowerMeasure>,
    /// The sum over the rails of volts times amps, in 1e-18 W.
    pub total_power: u128,
}

#[derive(Debug, PartialEq, Eq)]
pub struct PowerStatus {
    pub throttle: ThrottleStatus,
    pub power: Power,
}

/// A rail as a mathematical value: name, volts, amps.
pub type Rail = (Seq<u8>, u64, u64);

impl View for PowerMeasure {
    type V = Rail;

    open spec fn view(&self) -> Rail {
        (self.measure@, self.volts, self.amps)
    }
}

pub open spec fn rails_view(v: Seq<PowerMeasure>) -> Seq<Rail> {
    Seq::new(v.len(), |i: int| v[i]@)
}

/// What one line of the power report says.
pub enum RailLine {
    /// Nothing but whitespace.
    Blank,
    /// The line does not have the shape `<NAME>_A <key>=<value>A` (or `_V`, `V`).
    Malformed,
    /// The value is not a decimal number.
    BadNumber,
    /// A current (`amps`) or a voltage reading for the rail `name`, in billionths.
    Reading { name: Seq<u8>, amps: bool, value: u64 },
}

/// The lines of `s`: the pieces between line feeds.
pub open spec fn lines(s: Seq<u8>) -> Seq<Seq<u8>>
    decreases s.len(),
{
    let k = first_index(s, byte_eq(10u8));
    if k < s.len() {
        seq![s.take(k as int)] + lines(s.skip(k + 1 as int))
    } else {
        seq![s]
    }
}

/// A line holds whitespace-separated tokens. The first is `<NAME>_A` or
/// `<NAME>_V`, split at its last underscore; the second is `<key>=<value>`,
/// whose value runs to the next `=` and may end in copies of the unit letter.
pub open spec fn rail_line(l: Seq<u8>) -> RailLine {
    let t = trim_start(l);
    let key = t.take(first_index(t, space()) as int);
    let rest = trim_start(t.skip(key.len() as int));
    let tok = rest.take(first_index(rest, space()) as int);
    let u = last_index_of(key, 95u8);
    if key.len() == 0 {
        RailLine::Blank
    } else if u < 0 || key.len() != u + 2 || (key.last() != 65u8 && key.last() != 86u8) {
        RailLine::Malformed
    } else {
        let e = first_index(tok, byte_eq(61u8));
        if e >= tok.len() {
            RailLine::Malformed
        } else {
            let after = tok.skip(e as int + 1);
            let v = after.take(first_index(after, byte_eq(61u8)) as int);
            match decimal_nanos(trim_end_by(v, byte_eq(key.last()))) {
                Some(x) => RailLine::Reading { name: key.take(u), amps: key.last() == 65u8, value: x as u64 },
                None => RailLine::BadNumber,
            }
        }
    }
}

/// Byte-wise lexicographic order.
pub open spec fn seq_lt(a: Seq<u8>, b: Seq<u8>) -> bool
    decreases a.len(),
{
    if a.len() == 0 {
        b.len() > 0
    } else if b.len() == 0 {
        false
    } else if a[0] != b[0] {
        a[0] < b[0]
    } else {
        seq_lt(a.drop_first(), b.drop_first())
    }
}

/// Where a rail named `name` goes: after every leading rail whose name is smaller.
pub open spec fn insert_pos(rails: Seq<Rail>, name: Seq<u8>) -> nat
    decreases rails.len(),
{
    if rails.len() == 0 {
        0
    } else if seq_lt(rails[0].0, name) {
        1 + insert_pos(rails.drop_first(), name)
    } else {
        0
    }
}

pub open spec fn with_reading(r: Rail, amps: bool, value: u64) -> Rail {
    if amps {
        (r.0, r.1, value)
    } else {
        (r.0, value, r.2)
    }
}

/// The rails after one reading: the rail of that name takes the value, or a
/// new rail with the other quantity at zero is placed in name order.
pub open spec fn upsert(rails: Seq<Rail>, name: Seq<u8>, amps: bool, value: u64) -> Seq<Rail> {
    let i = insert_pos(rails, name) as int;
    if i < rails.len() && rails[i].0 == name {
        rails.update(i, with_reading(rails[i], amps, value))
    } else {
        rails.insert(i, with_reading((name, 0u64, 0u64), amps, value))
    }
}

/// The rails that the lines `ls` give, read in order after `acc`; a bad line
/// ends the reading with its fault (`true` for a bad number).
pub open spec fn read_rails(acc: Seq<Rail>, ls: Seq<Seq<u8>>) -> Result<Seq<Rail>, bool>
    decreases ls.len(),
{
    if ls.len() == 0 {
        Ok(acc)
    } else {
        match rail_line(ls[0]) {
            RailLine::Blank => read_rails(acc, ls.drop_first()),
            RailLine::Malformed => Err(false),
            RailLine::BadNumber => Err(true),
            RailLine::Reading { name, amps, value } => read_rails(
                upsert(acc, name, amps, value),
                ls.drop_first(),
            ),
        }
    }
}

pub open spec fn total_power(rails: Seq<Rail>) -> nat
    decreases rails.len(),
{
    if rails.len() == 0 {
        0
    } else {
        total_power(rails.drop_last()) + (rails.last().1 as nat) * (rails.last().2 as nat)
    }
}

/// Exec form of one line's reading, with the name as a range of the input.
enum LineOutcome {
    Blank,
    Malformed,
    BadNumber,
    Reading { name_lo: usize, name_hi: usize, amps: bool, value: u64 },
}

proof fn lemma_lines_step(s: Seq<u8>, k: int)
    requires
        0 <= k <= s.len(),
        k == first_index(s, byte_eq(10u8)),
    ensures
        k < s.len() ==> lines(s) == seq![s.take(k)] + lines(s.skip(k + 1)),
        k == s.len() ==> lines(s) == seq![s],
{
}

#[verifier::rlimit(60)]
fn read_line(b: &[u8], lo: usize, hi: usize) -> (r: LineOutcome)
    requires
        lo <= hi <= b@.len(),
    ensures
        match (r, rail_line(b@.subrange(lo as int, hi as int))) {
            (LineOutcome::Blank, RailLine::Blank) => true,
            (LineOutcome::Malformed, RailLine::Malformed) => true,
            (LineOutcome::BadNumber, RailLine::BadNumber) => true,
            (
                LineOutcome::Reading { name_lo, name_hi, amps, value },
                RailLine::Reading { name, amps: a, value: v },
            ) => lo <= name_lo <= name_hi <= hi && b@.subrange(name_lo as int, name_hi as int)
                == name && amps == a && value == v,
            _ => false,
        },
{
    let ghost l = b@.subrange(lo as int, hi as int);
    let s0 = find_space(b, lo, hi, false);
    let ghost t = trim_start(l);
    assert(t =~= b@.subrange(s0 as int, hi as int));
    let k1 = find_space(b, s0, hi, true);
    let ghost key = t.take(first_index(t, space()) as int);
    assert(key =~= b@.subrange(s0 as int, k1 as int));
    if k1 == s0 {
        return LineOutcome::Blank;
    }
    let s1 = find_space(b, k1, hi, false);
    assert(t.skip(key.len() as int) =~= b@.subrange(k1 as int, hi as int));
    let ghost rest = trim_start(t.skip(key.len() as int));
    assert(rest =~= b@.subrange(s1 as int, hi as int));
    let k2 = find_space(b, s1, hi, true);
    let ghost tok = rest.take(first_index(rest, space()) as int);
    assert(tok =~= b@.subrange(s1 as int, k2 as int));
    let u = match rfind_byte(b, s0, k1, 95u8) {
        Some(u) => u,
        None => return LineOutcome::Malformed,
    };
    let unit = b[k1 - 1];
    assert(key.last() == unit);
    if k1 - u != 2 || (unit != 65u8 && unit != 86u8) {
        return LineOutcome::Malformed;
    }
    let e = find_byte(b, s1, k2, 61u8);
    if e == k2 {
        return LineOutcome::Malformed;
    }
    let ghost after = tok.skip(e - s1 + 1);
    assert(after =~= b@.subrange(e + 1, k2 as int));
    let ve = find_byte(b, e + 1, k2, 61u8);
    let ghost v = after.take(first_index(after, byte_eq(61u8)) as int);
    assert(v =~= b@.subrange(e + 1, ve as int));
    let vend = trim_end_at(b, e + 1, ve, Some(unit));
    assert(trim_end_by(v, byte_eq(unit)) =~= b@.subrange(e + 1, vend as int));
    assert(key.take(u - s0) =~= b@.subrange(s0 as int, u as int));
    match parse_decimal_nanos(b, e + 1, vend) {
        Some(x) => LineOutcome::Reading { name_lo: s0, name_hi: u, amps: unit == 65u8, value: x },
        None => LineOutcome::BadNumber,
    }
}

/// Whether the rail name `a` comes before `b[lo..hi]`.
fn name_lt(a: &Vec<u8>, b: &[u8], lo: usize, hi: usize) -> (r: bool)
    requires
        lo <= hi <= b@.len(),
    ensures
        r == seq_lt(a@, b@.subrange(lo as int, hi as int)),
{
    let ghost c = b@.subrange(lo as int, hi as int);
    let mut i: usize = 0;
    assert(a@.skip(0) =~= a@);
    assert(c.skip(0) =~= c);
    loop
        invariant
            lo <= hi <= b@.len(),
            c == b@.subrange(lo as int, hi as int),
            i <= a@.len(),
            i <= hi - lo,
            seq_lt(a@, c) == seq_lt(a@.skip(i as int), c.skip(i as int)),
        decreases a@.len() - i,
    {
        if i == a.len() {
            return i < hi - lo;
        }
        if i == hi - lo {
            return false;
        }
        assert(c[i as int] == b@[lo + i]);
        if a[i] != b[lo + i] {
            return a[i] < b[lo + i];
        }
        assert(a@.skip(i as int).drop_first() =~= a@.skip(i + 1));
        assert(c.skip(i as int).drop_first() =~= c.skip(i + 1));
        i = i + 1;
    }
}

/// Whether the rail name `a` equals `b[lo..hi]`.
fn name_eq(a: &Vec<u8>, b: &[u8], lo: usize, hi: usize) -> (r: bool)
    requires
        lo <= hi <= b@.len(),
    ensures
        r == (a@ == b@.subrange(lo as int, hi as int)),
{
    if a.len() != hi - lo {
        return false;
    }
    let mut i: usize = 0;
    while i < a.len()
        invariant
            lo <= hi <= b@.len(),
            a@.len() == hi - lo,
            i <= a@.len(),
            forall|j: int| 0 <= j < i ==> a@[j] == b@[lo + j],
        decreases a@.len() - i,
    {
        if a[i] != b[lo + i] {
            assert(b@.subrange(lo as int, hi as int)[i as int] != a@[i as int]);
            return false;
        }
        i = i + 1;
    }
    assert(a@ =~= b@.subrange(lo as int, hi as int));
    true
}

fn copy_range(b: &[u8], lo: usize, hi: usize) -> (r: Vec<u8>)
    requires
        lo <= hi <= b@.len(),
    ensures
        r@ == b@.subrange(lo as int, hi as int),
{
    let mut r: Vec<u8> = Vec::new();
    let mut i: usize = lo;
    while i < hi
        invariant
            lo <= i <= hi <= b@.len(),
            r@ =~= b@.subrange(lo as int, i as int),
        decreases hi - i,
    {
        r.push(b[i]);
        i = i + 1;
    }
    r
}

proof fn lemma_insert_pos(rails: Seq<Rail>, name: Seq<u8>, k: int)
    requires
        0 <= k <= rails.len(),
        forall|j: int| 0 <= j < k ==> seq_lt(#[trigger] rails[j].0, name),
        k == rails.len() || !seq_lt(rails[k].0, name),
    ensures
        insert_pos(rails, name) == k,
    decreases k,
{
    if k > 0 {
        assert forall|j: int| 0 <= j < k - 1 implies seq_lt(#[trigger] rails.drop_first()[j].0, name) by {
            assert(rails.drop_first()[j] == rails[j + 1]);
        }
        lemma_insert_pos(rails.drop_first(), name, k - 1);
    }
}

/// Records one reading for the rail named `b[lo..hi]`.
fn upsert_rail(rails: &mut Vec<PowerMeasure>, b: &[u8], lo: usize, hi: usize, amps: bool, value: u64)
    requires
        lo <= hi <= b@.len(),
    ensures
        rails_view(final(rails)@) == upsert(
            rails_view(old(rails)@),
            b@.subrange(lo as int, hi as int),
            amps,
            value,
        ),
{
    let ghost name = b@.subrange(lo as int, hi as int);
    let ghost before = rails_view(rails@);
    let mut i: usize = 0;
    while i < rails.len() && name_lt(&rails[i].measure, b, lo, hi)
        invariant
            lo <= hi <= b@.len(),
            rails@ == old(rails)@,
            before == rails_view(rails@),
            name == b@.subrange(lo as int, hi as int),
            i <= rails@.len(),
            forall|j: int| 0 <= j < i ==> seq_lt(#[trigger] before[j].0, name),
        decreases rails@.len() - i,
    {
        i = i + 1;
    }
    proof {
        lemma_insert_pos(before, name, i as int);
    }
    if i < rails.len() && name_eq(&rails[i].measure, b, lo, hi) {
        let old_rail = rails.remove(i);
        let m = if amps {
            PowerMeasure { measure: old_rail.measure, volts: old_rail.volts, amps: value }
        } else {
            PowerMeasure { measure: old_rail.measure, volts: value, amps: old_rail.amps }
        };
        rails.insert(i, m);
        assert(rails_view(rails@) =~= before.update(i as int, with_reading(before[i as int], amps, value)));
    } else {
        let measure = copy_range(b, lo, hi);
        let m = if amps {
            PowerMeasure { measure, volts: 0, amps: value }
        } else {
            PowerMeasure { measure, volts: value, amps: 0 }
        };
        rails.insert(i, m);
        assert(rails_view(rails@) =~= before.insert(i as int, with_reading((name, 0u64, 0u64), amps, value)));
    }
}

proof fn lemma_total_mono(rails: Seq<Rail>, j: int, k: int)
    requires
        0 <= j <= k <= rails.len(),
    ensures
        total_power(rails.take(j)) <= total_power(rails.take(k)),
    decreases k - j,
{
    if j < k {
        lemma_total_mono(rails, j, k - 1);
        assert(rails.take(k).drop_last() =~= rails.take(k - 1));
    }
}

/// The summed power of the rails, if it fits in a `u128`.
fn sum_power(rails: &Vec<PowerMeasure>) -> (r: Option<u128>)
    ensures
        match r {
            Some(t) => t == total_power(rails_view(rails@)),
            None => total_power(rails_view(rails@)) > u128::MAX,
        },
{
    let ghost v = rails_view(rails@);
    let mut acc: u128 = 0;
    let mut i: usize = 0;
    while i < rails.len()
        invariant
            v == rails_view(rails@),
            i <= rails@.len(),
            acc == total_power(v.take(i as int)),
        decreases rails@.len() - i,
    {
        let volts = rails[i].volts as u128;
        let amps = rails[i].amps as u128;
        assert(volts * amps <= 0xFFFF_FFFF_FFFF_FFFFu128 * 0xFFFF_FFFF_FFFF_FFFFu128) by (nonlinear_arith)
            requires volts <= 0xFFFF_FFFF_FFFF_FFFFu128, amps <= 0xFFFF_FFFF_FFFF_FFFFu128;
        let p = volts * amps;
        proof {
            assert(v.take(i + 1).drop_last() =~= v.take(i as int));
            assert(v.take(i + 1).last() == v[i as int]);
        }
        match acc.checked_add(p) {
            Some(t) => acc = t,
            None => {
                proof {
                    lemma_total_mono(v, i + 1, v.len() as int);
                    assert(v.take(v.len() as int) =~= v);
                }
                return None;
            },
        }
        i = i + 1;
    }
    assert(v.take(v.len() as int) =~= v);
    Some(acc)
}

/// What the power report `s` yields: the rails read from its lines and their
/// total, a malformed line, a bad number, or a total too large to hold.
pub open spec fn power_result(s: Seq<u8>, r: Result<Power, Error>) -> bool {
    match read_rails(Seq::empty(), lines(s)) {
        Ok(rails) => if total_power(rails) <= u128::MAX {
            match r {
                Ok(p) => rails_view(p.power_map@) == rails && p.total_power == total_power(rails),
                Err(_) => false,
            }
        } else {
            r == Err::<Power, Error>(Error::ParseFloat)
        },
        Err(false) => is_parse_command(r),
        Err(true) => r == Err::<Power, Error>(Error::ParseFloat),
    }
}

impl Power {
    /// Reads the tool's power report: one reading per line, a voltage or a
    /// current of a named rail.
    pub fn new(output: &str) -> (r: Result<Power, Error>)
        ensures
            power_result(output.spec_bytes(), r),
            r matches Ok(p) ==> sorted_rails(rails_view(p.power_map@)),
    {
        let b = output.as_bytes();
        let ghost all = lines(b@);
        assert(b@.subrange(0, b@.len() as int) =~= b@);
        let mut rails: Vec<PowerMeasure> = Vec::new();
        assert(rails_view(rails@) =~= Seq::<Rail>::empty());
        let mut pos: usize = 0;
        loop
            invariant
                pos <= b@.len(),
                b@ == output.spec_bytes(),
                all == lines(b@),
                read_rails(Seq::empty(), all) == read_rails(
                    rails_view(rails@),
                    lines(b@.subrange(pos as int, b@.len() as int)),
                ),
            decreases b@.len() - pos,
        {
            let nl = find_byte(b, pos, b.len(), 10u8);
            let ghost rest = b@.subrange(pos as int, b@.len() as int);
            proof {
                lemma_lines_step(rest, nl - pos);
                assert(rest.take(nl - pos) =~= b@.subrange(pos as int, nl as int));
                if nl < b@.len() {
                    assert(rest.skip(nl - pos + 1) =~= b@.subrange(nl + 1, b@.len() as int));
                    let ls = lines(rest);
                    assert(ls[0] == b@.subrange(pos as int, nl as int));
                    assert(ls.drop_first() =~= lines(b@.subrange(nl + 1, b@.len() as int)));
                } else {
                    assert(rest =~= b@.subrange(pos as int, nl as int));
                    assert(lines(rest).drop_first() =~= Seq::<Seq<u8>>::empty());
                }
                assert(lines(rest)[0] == b@.subrange(pos as int, nl as int));
                assert(lines(rest).len() > 0);
            }
            match read_line(b, pos, nl) {
                LineOutcome::Blank => {
                    assert(read_rails(rails_view(rails@), lines(rest)) == read_rails(
                        rails_view(rails@),
                        lines(rest).drop_first(),
                    ));
                },
                LineOutcome::Malformed => {
                    assert(read_rails(rails_view(rails@), lines(rest)) == Err::<Seq<Rail>, bool>(false));
                    return Err(Error::ParseCommand("Malformed power rail line".to_owned()));
                },
                LineOutcome::BadNumber => {
                    assert(read_rails(rails_view(rails@), lines(rest)) == Err::<Seq<Rail>, bool>(true));
                    return Err(Error::ParseFloat);
                },
                LineOutcome::Reading { name_lo, name_hi, amps, value } => {
                    let ghost acc = rails_view(rails@);
                    upsert_rail(&mut rails, b, name_lo, name_hi, amps, value);
                    assert(read_rails(acc, lines(rest)) == read_rails(
                        rails_view(rails@),
                        lines(rest).drop_first(),
                    ));
                },
            }
            assert(read_rails(Seq::empty(), all) == read_rails(
                rails_view(rails@),
                lines(rest).drop_first(),
            ));
            if nl == b.len() {
                assert(read_rails(rails_view(rails@), lines(rest).drop_first()) == Ok::<Seq<Rail>, bool>(rails_view(rails@)));
                proof {
                    lemma_read_rails_sorted(Seq::empty(), all);
                }
                return match sum_power(&rails) {
                    Some(total_power) => Ok(Power { power_map: rails, total_power }),
                    None => Err(Error::ParseFloat),
                };
            }
            pos = nl + 1;
        }
    }
}

/// Names strictly increasing: sorted, and no name twice.
pub open spec fn sorted_rails(rails: Seq<Rail>) -> bool {
    forall|i: int, j: int| 0 <= i < j < rails.len() ==> seq_lt(#[trigger] rails[i].0, #[trigger] rails[j].0)
}

pub proof fn lemma_lt_transitive(a: Seq<u8>, b: Seq<u8>, c: Seq<u8>)
    requires
        seq_lt(a, b),
        seq_lt(b, c),
    ensures
        seq_lt(a, c),
    decreases a.len(),
{
    if a.len() > 0 && a[0] == b[0] && b[0] == c[0] {
        lemma_lt_transitive(a.drop_first(), b.drop_first(), c.drop_first());
    }
}

pub proof fn lemma_lt_total(a: Seq<u8>, b: Seq<u8>)
    requires
        a != b,
    ensures
        seq_lt(a, b) || seq_lt(b, a),
    decreases a.len(),
{
    if a.len() > 0 && b.len() > 0 && a[0] == b[0] {
        if a.drop_first() == b.drop_first() {
            assert(a =~= seq![a[0]] + a.drop_first());
            assert(b =~= seq![b[0]] + b.drop_first());
        }
        lemma_lt_total(a.drop_first(), b.drop_first());
    } else if a.len() == 0 && b.len() == 0 {
        assert(a =~= b);
    }
}

proof fn lemma_insert_pos_bounds(rails: Seq<Rail>, name: Seq<u8>)
    ensures
        insert_pos(rails, name) <= rails.len(),
        forall|j: int| 0 <= j < insert_pos(rails, name) ==> seq_lt(#[trigger] rails[j].0, name),
        insert_pos(rails, name) < rails.len() ==> !seq_lt(rails[insert_pos(rails, name) as int].0, name),
    decreases rails.len(),
{
    if rails.len() > 0 && seq_lt(rails[0].0, name) {
        let rest = rails.drop_first();
        lemma_insert_pos_bounds(rest, name);
        assert forall|j: int| 0 <= j < insert_pos(rails, name) implies seq_lt(#[trigger] rails[j].0, name) by {
            if j > 0 {
                assert(rails[j] == rest[j - 1]);
            }
        }
    }
}

/// One reading keeps the rails strictly sorted by name.
pub proof fn lemma_upsert_sorted(rails: Seq<Rail>, name: Seq<u8>, amps: bool, value: u64)
    requires
        sorted_rails(rails),
    ensures
        sorted_rails(upsert(rails, name, amps, value)),
{
    let i = insert_pos(rails, name) as int;
    lemma_insert_pos_bounds(rails, name);
    let r = upsert(rails, name, amps, value);
    if i < rails.len() && rails[i].0 == name {
        assert forall|a: int, b: int| 0 <= a < b < r.len() implies seq_lt(#[trigger] r[a].0, #[trigger] r[b].0) by {
            assert(r[a].0 == rails[a].0 && r[b].0 == rails[b].0);
        }
    } else {
        if i < rails.len() {
            lemma_lt_total(rails[i].0, name);
        }
        assert forall|a: int, b: int| 0 <= a < b < r.len() implies seq_lt(#[trigger] r[a].0, #[trigger] r[b].0) by {
            if b < i {
                assert(r[a] == rails[a] && r[b] == rails[b]);
            } else if b == i {
                assert(r[a] == rails[a]);
            } else if a == i {
                assert(r[b] == rails[b - 1]);
                if b - 1 > i {
                    lemma_lt_transitive(name, rails[i].0, rails[b - 1].0);
                }
            } else if a < i {
                assert(r[a] == rails[a] && r[b] == rails[b - 1]);
            } else {
                assert(r[a] == rails[a - 1] && r[b] == rails[b - 1]);
            }
        }
    }
}

/// Whatever order the lines come in, the rails read from them are strictly
/// sorted by name.
pub proof fn lemma_read_rails_sorted(acc: Seq<Rail>, ls: Seq<Seq<u8>>)
    requires
        sorted_rails(acc),
    ensures
        read_rails(acc, ls) matches Ok(rails) ==> sorted_rails(rails),
    decreases ls.len(),
{
    if ls.len() > 0 {
        match rail_line(ls[0]) {
            RailLine::Reading { name, amps, value } => {
                lemma_upsert_sorted(acc, name, amps, value);
                lemma_read_rails_sorted(upsert(acc, name, amps, value), ls.drop_first());
            },
            RailLine::Blank => {
                lemma_read_rails_sorted(acc, ls.drop_first());
            },
            _ => {},
        }
    }
}

pub proof fn lemma_lt_irreflexive(a: Seq<u8>)
    ensures
        !seq_lt(a, a),
    decreases a.len(),
{
    if a.len() > 0 {
        lemma_lt_irreflexive(a.drop_first());
    }
}

/// The voltage and current recorded for the rail named `m`, if there is one.
pub open spec fn lookup(rails: Seq<Rail>, m: Seq<u8>) -> Option<(u64, u64)>
    decreases rails.len(),
{
    if rails.len() == 0 {
        None
    } else if rails[0].0 == m {
        Some((rails[0].1, rails[0].2))
    } else {
        lookup(rails.drop_first(), m)
    }
}

proof fn lemma_sorted_tail(rails: Seq<Rail>)
    requires
        sorted_rails(rails),
        rails.len() > 0,
    ensures
        sorted_rails(rails.drop_first()),
{
    let t = rails.drop_first();
    assert forall|i: int, j: int| 0 <= i < j < t.len() implies seq_lt(#[trigger] t[i].0, #[trigger] t[j].0) by {
        assert(t[i] == rails[i + 1] && t[j] == rails[j + 1]);
    }
}

proof fn lemma_lookup_at(rails: Seq<Rail>, i: int)
    requires
        sorted_rails(rails),
        0 <= i < rails.len(),
    ensures
        lookup(rails, rails[i].0) == Some((rails[i].1, rails[i].2)),
    decreases i,
{
    if i > 0 {
        assert(seq_lt(rails[0].0, rails[i].0));
        lemma_lt_irreflexive(rails[i].0);
        lemma_sorted_tail(rails);
        assert(rails.drop_first()[i - 1] == rails[i]);
        lemma_lookup_at(rails.drop_first(), i - 1);
    }
}

proof fn lemma_lookup_none(rails: Seq<Rail>, m: Seq<u8>)
    requires
        forall|j: int| 0 <= j < rails.len() ==> #[trigger] rails[j].0 != m,
    ensures
        lookup(rails, m) is None,
    decreases rails.len(),
{
    if rails.len() > 0 {
        let t = rails.drop_first();
        assert forall|j: int| 0 <= j < t.len() implies #[trigger] t[j].0 != m by {
            assert(t[j] == rails[j + 1]);
        }
        lemma_lookup_none(t, m);
    }
}

/// In sorted rails, `lookup` finds exactly the rail of that name.
proof fn lemma_lookup_some(rails: Seq<Rail>, m: Seq<u8>) -> (i: int)
    requires
        sorted_rails(rails),
        lookup(rails, m) is Some,
    ensures
        0 <= i < rails.len(),
        rails[i].0 == m,
{
    if forall|j: int| 0 <= j < rails.len() ==> #[trigger] rails[j].0 != m {
        lemma_lookup_none(rails, m);
    }
    choose|j: int| 0 <= j < rails.len() && #[trigger] rails[j].0 == m
}

/// The values a reading leaves for its rail, given what the rail held.
pub open spec fn reading_vals(before: Option<(u64, u64)>, amps: bool, value: u64) -> (u64, u64) {
    let old = match before {
        Some(x) => x,
        None => (0u64, 0u64),
    };
    if amps {
        (old.0, value)
    } else {
        (value, old.1)
    }
}

proof fn lemma_upsert_lookup(rails: Seq<Rail>, n: Seq<u8>, a: bool, v: u64, m: Seq<u8>)
    requires
        sorted_rails(rails),
    ensures
        lookup(upsert(rails, n, a, v), m) == if m == n {
            Some(reading_vals(lookup(rails, n), a, v))
        } else {
            lookup(rails, m)
        },
{
    let i = insert_pos(rails, n) as int;
    lemma_insert_pos_bounds(rails, n);
    lemma_upsert_sorted(rails, n, a, v);
    let r = upsert(rails, n, a, v);
    let updating = i < rails.len() && rails[i].0 == n;
    if updating {
        lemma_lookup_at(rails, i);
        lemma_lookup_at(r, i);
        if m != n {
            if lookup(rails, m) is Some {
                let j = lemma_lookup_some(rails, m);
                lemma_lookup_at(rails, j);
                lemma_lookup_at(r, j);
            } else {
                assert forall|j: int| 0 <= j < r.len() implies #[trigger] r[j].0 != m by {
                    if r[j].0 == m {
                        lemma_lookup_at(rails, j);
                    }
                }
                lemma_lookup_none(r, m);
            }
        }
    } else {
        if i < rails.len() {
            lemma_lt_total(rails[i].0, n);
        }
        assert forall|j: int| 0 <= j < rails.len() implies #[trigger] rails[j].0 != n by {
            if j < i {
                lemma_lt_irreflexive(n);
            } else {
                if j > i {
                    lemma_lt_transitive(n, rails[i].0, rails[j].0);
                }
                lemma_lt_irreflexive(n);
            }
        }
        lemma_lookup_none(rails, n);
        assert(r[i].0 == n);
        lemma_lookup_at(r, i);
        if m != n {
            if lookup(rails, m) is Some {
                let j = lemma_lookup_some(rails, m);
                lemma_lookup_at(rails, j);
                if j < i {
                    assert(r[j] == rails[j]);
                    lemma_lookup_at(r, j);
                } else {
                    assert(r[j + 1] == rails[j]);
                    lemma_lookup_at(r, j + 1);
                }
            } else {
                assert forall|j: int| 0 <= j < r.len() implies #[trigger] r[j].0 != m by {
                    if j < i {
                        assert(r[j] == rails[j]);
                        if r[j].0 == m {
                            lemma_lookup_at(rails, j);
                        }
                    } else if j > i {
                        assert(r[j] == rails[j - 1]);
                        if r[j].0 == m {
                            lemma_lookup_at(rails, j - 1);
                        }
                    }
                }
                lemma_lookup_none(r, m);
            }
        }
    }
}

/// Sorted rails that record the same values under every name are equal.
proof fn lemma_lookup_ext(r1: Seq<Rail>, r2: Seq<Rail>)
    requires
        sorted_rails(r1),
        sorted_rails(r2),
        forall|m: Seq<u8>| #[trigger] lookup(r1, m) == lookup(r2, m),
    ensures
        r1 == r2,
    decreases r1.len() + r2.len(),
{
    if r1.len() == 0 && r2.len() > 0 {
        lemma_lookup_at(r2, 0);
        assert(lookup(r1, r2[0].0) is None);
    } else if r2.len() == 0 && r1.len() > 0 {
        lemma_lookup_at(r1, 0);
        assert(lookup(r2, r1[0].0) is None);
    } else if r1.len() > 0 {
        let h1 = r1[0].0;
        let h2 = r2[0].0;
        lemma_lookup_at(r1, 0);
        lemma_lookup_at(r2, 0);
        assert(lookup(r2, h1) == lookup(r1, h1));
        assert(lookup(r1, h2) == lookup(r2, h2));
        let j = lemma_lookup_some(r2, h1);
        let k = lemma_lookup_some(r1, h2);
        if h1 != h2 {
            if j > 0 && k > 0 {
                assert(seq_lt(h2, h1) && seq_lt(h1, h2));
                lemma_lt_transitive(h1, h2, h1);
                lemma_lt_irreflexive(h1);
            }
        }
        assert(h1 == h2);
        let t1 = r1.drop_first();
        let t2 = r2.drop_first();
        lemma_sorted_tail(r1);
        lemma_sorted_tail(r2);
        assert forall|m: Seq<u8>| #[trigger] lookup(t1, m) == lookup(t2, m) by {
            if m == h1 {
                assert forall|x: int| 0 <= x < t1.len() implies #[trigger] t1[x].0 != m by {
                    assert(t1[x] == r1[x + 1]);
                    lemma_lt_irreflexive(m);
                }
                assert forall|x: int| 0 <= x < t2.len() implies #[trigger] t2[x].0 != m by {
                    assert(t2[x] == r2[x + 1]);
                    lemma_lt_irreflexive(m);
                }
                lemma_lookup_none(t1, m);
                lemma_lookup_none(t2, m);
            } else {
                assert(lookup(r1, m) == lookup(r2, m));
            }
        }
        lemma_lookup_ext(t1, t2);
        assert(r1 =~= seq![r1[0]] + t1);
        assert(r2 =~= seq![r2[0]] + t2);
    } else {
        assert(r1 =~= r2);
    }
}

/// Two readings commute unless they are for the same rail and the same quantity.
pub proof fn lemma_upsert_commute(
    rails: Seq<Rail>,
    n1: Seq<u8>,
    a1: bool,
    v1: u64,
    n2: Seq<u8>,
    a2: bool,
    v2: u64,
)
    requires
        sorted_rails(rails),
        n1 != n2 || a1 != a2,
    ensures
        upsert(upsert(rails, n1, a1, v1), n2, a2, v2) == upsert(
            upsert(rails, n2, a2, v2),
            n1,
            a1,
            v1,
        ),
{
    let x1 = upsert(rails, n1, a1, v1);
    let x2 = upsert(rails, n2, a2, v2);
    lemma_upsert_sorted(rails, n1, a1, v1);
    lemma_upsert_sorted(rails, n2, a2, v2);
    lemma_upsert_sorted(x1, n2, a2, v2);
    lemma_upsert_sorted(x2, n1, a1, v1);
    assert forall|m: Seq<u8>| #[trigger] lookup(upsert(x1, n2, a2, v2), m) == lookup(
        upsert(x2, n1, a1, v1),
        m,
    ) by {
        lemma_upsert_lookup(x1, n2, a2, v2, m);
        lemma_upsert_lookup(x2, n1, a1, v1, m);
        lemma_upsert_lookup(rails, n1, a1, v1, m);
        lemma_upsert_lookup(rails, n2, a2, v2, m);
        lemma_upsert_lookup(rails, n1, a1, v1, n2);
        lemma_upsert_lookup(rails, n2, a2, v2, n1);
    }
    lemma_lookup_ext(upsert(x1, n2, a2, v2), upsert(x2, n1, a1, v1));
}

/// Two neighbouring lines of the power report may trade places without
/// changing what is read, unless both are readings of the same quantity of
/// the same rail. Any reordering of lines that keeps, for each rail and
/// quantity, the order of its readings is a chain of such swaps, so it gives
/// the same rails and the same total.
pub proof fn lemma_swap_lines(acc: Seq<Rail>, pre: Seq<Seq<u8>>, l1: Seq<u8>, l2: Seq<u8>, rest: Seq<Seq<u8>>)
    requires
        sorted_rails(acc),
        !(rail_line(l1) matches RailLine::Reading { name: n1, amps: a1, .. }
            && rail_line(l2) matches RailLine::Reading { name: n2, amps: a2, .. } && n1 == n2
            && a1 == a2),
        rail_line(l1) is Reading || rail_line(l1) is Blank,
        rail_line(l2) is Reading || rail_line(l2) is Blank,
    ensures
        read_rails(acc, pre + seq![l1, l2] + rest) == read_rails(acc, pre + seq![l2, l1] + rest),
    decreases pre.len(),
{
    if pre.len() > 0 {
        let ls1 = pre + seq![l1, l2] + rest;
        let ls2 = pre + seq![l2, l1] + rest;
        assert(ls1[0] == pre[0] && ls2[0] == pre[0]);
        assert(ls1.drop_first() =~= pre.drop_first() + seq![l1, l2] + rest);
        assert(ls2.drop_first() =~= pre.drop_first() + seq![l2, l1] + rest);
        match rail_line(pre[0]) {
            RailLine::Reading { name, amps, value } => {
                lemma_upsert_sorted(acc, name, amps, value);
                lemma_swap_lines(upsert(acc, name, amps, value), pre.drop_first(), l1, l2, rest);
            },
            RailLine::Blank => {
                lemma_swap_lines(acc, pre.drop_first(), l1, l2, rest);
            },
            _ => {},
        }
    } else {
        let ls1 = seq![l1, l2] + rest;
        let ls2 = seq![l2, l1] + rest;
        assert(pre + seq![l1, l2] + rest =~= ls1);
        assert(pre + seq![l2, l1] + rest =~= ls2);
        assert(ls1.drop_first().drop_first() =~= rest);
        assert(ls2.drop_first().drop_first() =~= rest);
        assert(ls1.drop_first()[0] == l2 && ls2.drop_first()[0] == l1);
        let after1 = match rail_line(l1) {
            RailLine::Reading { name, amps, value } => upsert(acc, name, amps, value),
            _ => acc,
        };
        let after2 = match rail_line(l2) {
            RailLine::Reading { name, amps, value } => upsert(acc, name, amps, value),
            _ => acc,
        };
        let both12 = match rail_line(l2) {
            RailLine::Reading { name, amps, value } => upsert(after1, name, amps, value),
            _ => after1,
        };
        let both21 = match rail_line(l1) {
            RailLine::Reading { name, amps, value } => upsert(after2, name, amps, value),
            _ => after2,
        };
        assert(read_rails(acc, ls1) == read_rails(after1, ls1.drop_first()));
        assert(read_rails(after1, ls1.drop_first()) == read_rails(both12, rest));
        assert(read_rails(acc, ls2) == read_rails(after2, ls2.drop_first()));
        assert(read_rails(after2, ls2.drop_first()) == read_rails(both21, rest));
        match (rail_line(l1), rail_line(l2)) {
            (RailLine::Reading { name: n1, amps: a1, value: v1 }, RailLine::Reading { name: n2, amps: a2, value: v2 }) => {
                lemma_upsert_commute(acc, n1, a1, v1, n2, a2, v2);
            },
            _ => {},
        }
        assert(both12 == both21);
    }
}

/// Whether the power report `s` reads without a fault.
pub open spec fn power_ok(s: Seq<u8>) -> bool {
    match read_rails(Seq::empty(), lines(s)) {
        Ok(rails) => total_power(rails) <= u128::MAX,
        Err(_) => false,
    }
}

/// Whether `e` is the error of the first of the two reports that fails to
/// read: the throttle report, then the power report.
pub open spec fn power_status_error(throttle: Seq<u8>, pmic: Seq<u8>, e: Error) -> bool {
    ||| status_word(throttle) is None && e == Error::MalformedStatusWord
    ||| status_word(throttle) is Some && power_result(pmic, Err(e))
}

impl PowerStatus {
    /// Reads the throttle report, then the power report; the first failure is returned.
    pub fn new(throttle_output: &str, pmic_output: &str) -> (r: Result<PowerStatus, Error>)
        ensures
            r is Ok <==> (status_word(throttle_output.spec_bytes()) is Some && power_ok(
                pmic_output.spec_bytes(),
            )),
            r matches Ok(p) ==> power_result(pmic_output.spec_bytes(), Ok(p.power)),
            r matches Ok(p) ==> status_word(throttle_output.spec_bytes()) matches Some(w)
                && p.throttle == decoded(w),
            r matches Err(e) ==> power_status_error(
                throttle_output.spec_bytes(),
                pmic_output.spec_bytes(),
                e,
            ),
    {
        let throttle = match ThrottleStatus::new(throttle_output) {
            Ok(t) => t,
            Err(e) => return Err(e),
        };
        let power = match Power::new(pmic_output) {
            Ok(p) => p,
            Err(e) => return Err(e),
        };
        Ok(PowerStatus { throttle, power })
    }
}

} // verus!
