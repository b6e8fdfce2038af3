//! Readings of the clocks, and how they are printed.
use crate::text;
use vstd::arithmetic::power2::*;
use vstd::prelude::*;

verus! {

/// Nanoseconds in a second.
pub const NANOS: u64 = 1_000_000_000;

/// The last second, counted from 1970, that a wall-clock time can name.
pub const LAST_SECOND: i64 = 8_210_266_876_799;

/// Time of day, as stamped on a line.
pub const CLOCK_FORMAT: &'static str = "%H:%M:%S%.3f";

/// Date and time, as written to a log.
pub const STAMP_FORMAT: &'static str = "%Y-%m-%d %H:%M:%S%.3f";

/// Date and time, as used in a file name.
pub const FILE_FORMAT: &'static str = "%Y%m%d-%H%M%S";

/// A wall-clock time together with the offset of local time.
#[derive(Copy, Clone, Debug, PartialEq, Eq, Structural)]
pub struct WallTime {
    /// Seconds since the start of 1970, UTC
    pub secs: i64,
    /// Nanoseconds within the second
    pub nanos: u32,
    /// Seconds that local time is ahead of UTC
    pub offset: i32,
}

impl WallTime {
    /// Whether the parts name a time that can be printed.
    pub open spec fn valid(self) -> bool {
        &&& 0 <= self.secs <= LAST_SECOND
        &&& self.nanos < NANOS
        &&& -86_400 < self.offset < 86_400
    }

    /// The local time of day, in seconds since midnight.
    pub open spec fn second_of_day(self) -> nat {
        ((self.secs + self.offset) % 86_400) as nat
    }
}

/// A span of time.
#[derive(Copy, Clone, Debug, PartialEq, Eq, Structural)]
pub struct Elapsed {
    pub nanos: u64,
}

impl Elapsed {
    pub fn from_millis(ms: u32) -> (e: Elapsed)
        ensures
            e.nanos == ms * 1_000_000,
    {
        Elapsed { nanos: ms as u64 * 1_000_000 }
    }
}

/// One reading of both clocks.
#[derive(Copy, Clone, Debug, PartialEq, Eq, Structural)]
pub struct Now {
    pub wall: WallTime,
    /// Nanoseconds on the monotonic clock since it was started
    pub mono: u64,
}

/// `std::time::Instant`, carried as it is.
#[verifier::external_type_specification]
#[verifier::external_body]
pub struct ExInstant(std::time::Instant);

/// `Instant::now` reads the monotonic clock. Nothing is claimed of the reading.
#[verifier::external_body]
fn instant_now() -> std::time::Instant {
    std::time::Instant::now()
}

/// `Instant::elapsed` gives the time passed since an instant, here in nanoseconds.
/// Nothing is claimed of the reading.
#[verifier::external_body]
fn nanos_since(origin: &std::time::Instant) -> u64 {
    origin.elapsed().as_nanos() as u64
}

/// `chrono::Local::now` reads the system clock and the local offset. The reading
/// lies between 1970 and the last time chrono can represent, its nanoseconds are
/// below one second and the offset is below one day: outside of that chrono gives
/// no reading at all. Which time it is depends on the machine and is not stated.
#[verifier::external_body]
pub(crate) fn local_now() -> (t: WallTime)
    ensures
        t.valid(),
{
    let t = chrono::Local::now();
    WallTime {
        secs: t.timestamp(),
        nanos: t.timestamp_subsec_nanos(),
        offset: t.offset().local_minus_utc(),
    }
}

/// What chrono's `DateTime::format` prints for a time, an offset and a format.
pub uninterp spec fn chrono_text(secs: i64, nanos: u32, offset: i32, format: Seq<char>) -> Seq<
    char,
>;

/// Whether a format is one of those used here.
pub open spec fn known_format(format: Seq<char>) -> bool {
    format == CLOCK_FORMAT@ || format == STAMP_FORMAT@ || format == FILE_FORMAT@
}

/// The local time of day as hours, minutes, seconds and milliseconds; the rest of
/// the millisecond is cut off.
pub open spec fn clock_text(t: WallTime) -> Seq<char> {
    let s = t.second_of_day();
    text::two_digits(s / 3600) + seq![':'] + text::two_digits(s / 60 % 60) + seq![':']
        + text::two_digits(s % 60) + seq!['.'] + text::three_digits(t.nanos as nat / 1_000_000)
}

/// The local time of day as six digits.
pub open spec fn compact_text(t: WallTime) -> Seq<char> {
    let s = t.second_of_day();
    text::two_digits(s / 3600) + text::two_digits(s / 60 % 60) + text::two_digits(s % 60)
}

/// chrono's `DateTime::format`, printed. The text depends on the time, the offset
/// and the format alone; the time-of-day format gives `clock_text`, the log stamp
/// ends with it, and the stamp of a file name ends with the same time in six digits.
/// The date part is not spelled out.
#[verifier::external_body]
pub(crate) fn format_time(t: &WallTime, format: &str) -> (s: String)
    requires
        t.valid(),
        known_format(format@),
    ensures
        s@ == chrono_text(t.secs, t.nanos, t.offset, format@),
        format@ == CLOCK_FORMAT@ ==> s@ == clock_text(*t),
        format@ == STAMP_FORMAT@ ==> (" "@ + clock_text(*t)).is_suffix_of(s@),
        format@ == FILE_FORMAT@ ==> ("-"@ + compact_text(*t)).is_suffix_of(s@),
{
    let utc = chrono::DateTime::from_timestamp(t.secs, t.nanos).unwrap();
    let zone = chrono::FixedOffset::east_opt(t.offset).unwrap();
    utc.with_timezone(&zone).format(format).to_string()
}

/// A running pair of clocks.
pub struct Clock {
    origin: std::time::Instant,
}

impl Clock {
    /// Starts the monotonic clock: readings count from this moment. Which moment that
    /// is depends on the machine and is not stated.
    pub fn start() -> (c: Self) {
        Clock { origin: instant_now() }
    }

    /// Reads both clocks. The wall-clock reading is one that can be printed.
    pub fn read(&self) -> (now: Now)
        ensures
            now.wall.valid(),
    {
        Now { wall: local_now(), mono: nanos_since(&self.origin) }
    }
}

/// `num / den` rounded to the nearest whole number, halves to the even one.
pub open spec fn round_half_even(num: nat, den: nat) -> nat {
    let q = num / den;
    let r = num % den;
    if 2 * r < den || (2 * r == den && q % 2 == 0) {
        q
    } else {
        q + 1
    }
}

/// The number of binary places, from `k` on, at which a fraction of `frac`
/// nanoseconds fills the 53 bits of a double.
pub open spec fn fraction_places(frac: nat, k: nat) -> nat
    decreases 82 - k,
{
    if k >= 82 || frac * pow2(k) >= pow2(52) * NANOS as nat {
        k
    } else {
        fraction_places(frac, k + 1)
    }
}

/// The number of binary places, from `p` down, that a double has left next to
/// `secs` whole seconds.
pub open spec fn places_beside(secs: nat, p: nat) -> nat
    decreases p,
{
    if p == 0 || secs * pow2(p) < pow2(53) {
        p
    } else {
        places_beside(secs, (p - 1) as nat)
    }
}

/// A span in thousandths of a second, rounded the way it is when the span is held
/// as a double: the part below one second becomes the double nearest to it, the
/// whole seconds are added in double precision, and the sum is rounded to three
/// decimal places with halves to the even digit.
pub open spec fn thousandths(nanos: nat) -> nat {
    let secs = nanos / NANOS as nat;
    let frac = nanos % NANOS as nat;
    if frac == 0 {
        secs * 1000
    } else {
        let k = fraction_places(frac, 53);
        let m = round_half_even(frac * pow2(k), NANOS as nat);
        if secs == 0 {
            round_half_even(m * 1000, pow2(k))
        } else {
            let p = places_beside(secs, 52);
            let sum = secs * pow2(p) + round_half_even(m * pow2(p), pow2(k));
            round_half_even(sum * 1000, pow2(p))
        }
    }
}

/// A span in seconds with three decimal places.
pub open spec fn seconds_text(nanos: nat) -> Seq<char> {
    text::decimal(thousandths(nanos) / 1000) + seq!['.'] + text::three_digits(
        thousandths(nanos),
    )
}

pub(crate) proof fn lemma_round_bound(num: nat, den: nat, q: nat)
    requires
        den > 0,
        num <= q * den,
    ensures
        round_half_even(num, den) <= q,
{
    let d = num / den;
    let r = num % den;
    vstd::arithmetic::div_mod::lemma_fundamental_div_mod(num as int, den as int);
    assert(d <= q) by (nonlinear_arith)
        requires
            num == den * d + r,
            num <= q * den,
            den > 0,
            r >= 0,
    ;
    if d == q {
        assert(r == 0) by (nonlinear_arith)
            requires
                num == den * d + r,
                num <= q * den,
                d == q,
                r >= 0,
        ;
    }
}

pub(crate) fn round_div(num: u128, den: u128) -> (r: u128)
    requires
        0 < den < 0x4000_0000_0000_0000_0000_0000_0000_0000,
        num < 0x4000_0000_0000_0000_0000_0000_0000_0000,
    ensures
        r == round_half_even(num as nat, den as nat),
{
    let q = num / den;
    let rest = num % den;
    if 2 * rest < den || (2 * rest == den && q % 2 == 0) {
        q
    } else {
        q + 1
    }
}

/// A span in thousandths of a second.
pub fn to_thousandths(e: Elapsed) -> (ms: u64)
    ensures
        ms == thousandths(e.nanos as nat),
{
    let secs: u64 = e.nanos / NANOS;
    let frac: u128 = (e.nanos % NANOS) as u128;
    if frac == 0 {
        return secs * 1000;
    }
    proof {
        lemma2_to64();
        lemma2_to64_rest();
    }
    let limit: u128 = 0x10_0000_0000_0000 * 1_000_000_000;
    let ghost mut k: nat = 53;
    let mut unit: u128 = 0x20_0000_0000_0000;
    let mut x: u128 = frac * unit;
    while x < limit
        invariant
            0 < frac < NANOS,
            limit == pow2(52) * NANOS as nat,
            limit == 0x10_0000_0000_0000 * 1_000_000_000,
            53 <= k <= 82,
            unit == pow2(k),
            x == frac * unit,
            0 < unit <= x,
            x < 2 * limit,
            fraction_places(frac as nat, 53) == fraction_places(frac as nat, k),
        ensures
            53 <= k <= 82,
            k == fraction_places(frac as nat, 53),
            unit == pow2(k),
            x == frac * unit,
            unit <= x,
            x < 2 * limit,
        decreases 2 * limit - x,
    {
        proof {
            lemma_pow2_unfold(k + 1);
            if k >= 82 {
                lemma_wide_unit(k);
            }
            assert(frac * (2 * unit) == 2 * (frac * unit)) by (nonlinear_arith);
            k = k + 1;
        }
        unit = unit * 2;
        x = x * 2;
    }
    let m = round_div(x, 1_000_000_000);
    proof {
        lemma_round_bound(x as nat, NANOS as nat, 0x20_0000_0000_0000);
        lemma_places_wide(k);
    }
    if secs == 0 {
        proof {
            lemma_round_bound(m as nat * 1000, unit as nat, 1000);
        }
        return round_div(m * 1000, unit) as u64;
    }
    let ghost mut p: nat = 52;
    let mut pow: u128 = 0x10_0000_0000_0000;
    let mut whole: u128 = secs as u128 * pow;
    while whole >= 0x20_0000_0000_0000
        invariant
            0 < secs <= 18_446_744_073,
            p <= 52,
            pow == pow2(p),
            0 < pow <= 0x10_0000_0000_0000,
            whole == secs * pow,
            pow2(53) == 0x20_0000_0000_0000,
            places_beside(secs as nat, 52) == places_beside(secs as nat, p),
        ensures
            p <= 52,
            p == places_beside(secs as nat, 52),
            pow == pow2(p),
            0 < pow <= 0x10_0000_0000_0000,
            whole == secs * pow,
            whole < 0x20_0000_0000_0000,
        decreases p,
    {
        proof {
            if p == 0 {
                lemma2_to64();
                assert(whole == secs);
            }
            lemma_pow2_unfold(p);
            lemma_pow2_pos((p - 1) as nat);
            let half = pow2((p - 1) as nat);
            assert(secs * (2 * half) == 2 * (secs * half)) by (nonlinear_arith);
            p = (p - 1) as nat;
        }
        pow = pow / 2;
        whole = whole / 2;
    }
    assert(m * pow <= 0x20_0000_0000_0000 * 0x10_0000_0000_0000) by (nonlinear_arith)
        requires
            m <= 0x20_0000_0000_0000,
            pow <= 0x10_0000_0000_0000,
    ;
    assert(m * pow <= pow * unit) by (nonlinear_arith)
        requires
            m <= unit,
    ;
    proof {
        lemma_round_bound((m * pow) as nat, unit as nat, pow as nat);
    }
    let part = round_div(m * pow, unit);
    let sum = whole + part;
    assert(sum * 1000 <= (secs + 1) * 1000 * pow) by (nonlinear_arith)
        requires
            sum == secs * pow + part,
            part <= pow,
    ;
    proof {
        lemma_round_bound((sum * 1000) as nat, pow as nat, ((secs + 1) * 1000) as nat);
    }
    round_div(sum * 1000, pow) as u64
}

proof fn lemma_wide_unit(k: nat)
    requires
        k >= 82,
    ensures
        pow2(k) >= pow2(52) * NANOS as nat,
    decreases k,
{
    lemma2_to64();
    lemma2_to64_rest();
    if k > 82 {
        lemma_wide_unit((k - 1) as nat);
        lemma_pow2_unfold(k);
    } else {
        lemma_pow2_adds(52, 30);
    }
}

proof fn lemma_places_wide(k: nat)
    requires
        k >= 53,
    ensures
        pow2(k) >= 0x20_0000_0000_0000,
    decreases k,
{
    lemma2_to64_rest();
    if k > 53 {
        lemma_places_wide((k - 1) as nat);
        lemma_pow2_unfold(k);
    }
}

/// A span in seconds with three decimal places.
pub fn seconds(e: Elapsed) -> (s: String)
    ensures
        s@ == seconds_text(e.nanos as nat),
{
    let ms = to_thousandths(e);
    let mut s = String::new();
    text::push_decimal(&mut s, ms / 1000);
    s.push('.');
    text::push_three_digits(&mut s, ms);
    assert(s@ =~= seconds_text(e.nanos as nat));
    s
}

/// Rounding is to the nearest whole number: it is off by half at most.
pub proof fn rounding_is_to_the_nearest(num: nat, den: nat)
    requires
        den > 0,
    ensures
        2 * (round_half_even(num, den) * den - num) <= den,
        2 * (num - round_half_even(num, den) * den) <= den,
{
    let q = num / den;
    let r = num % den;
    vstd::arithmetic::div_mod::lemma_fundamental_div_mod(num as int, den as int);
    assert((q + 1) * den == q * den + den) by (nonlinear_arith);
    assert(den * q == q * den) by (nonlinear_arith);
}

proof fn lemma_places_beside(secs: nat, p: nat, j: nat)
    requires
        j <= p,
        secs * pow2(j) < pow2(53),
    ensures
        j <= places_beside(secs, p) <= p,
    decreases p,
{
    if p > j {
        lemma_places_beside(secs, (p - 1) as nat, j);
    }
}

proof fn lemma_fraction_places(frac: nat, k: nat)
    ensures
        fraction_places(frac, k) >= k,
    decreases 82 - k,
{
    if !(k >= 82 || frac * pow2(k) >= pow2(52) * NANOS as nat) {
        lemma_fraction_places(frac, k + 1);
    }
}

proof fn lemma_near_below_a_second(frac: int, u: int, m: int, v: int)
    requires
        u >= 1_000_000_000,
        2 * (m * 1_000_000_000 - frac * u) <= 1_000_000_000,
        2 * (frac * u - m * 1_000_000_000) <= 1_000_000_000,
        2 * (v * u - m * 1000) <= u,
        2 * (m * 1000 - v * u) <= u,
    ensures
        v * 1_000_000 - frac <= 500_000,
        frac - v * 1_000_000 <= 500_000,
{
    let d = v * 1_000_000 - frac;
    assert(d * u == 1_000_000 * (v * u) - frac * u) by (nonlinear_arith)
        requires
            d == v * 1_000_000 - frac,
    ;
    assert(2 * (d * u) <= 1_000_001 * u);
    assert(-2 * (d * u) <= 1_000_001 * u);
    assert(2 * d <= 1_000_001) by (nonlinear_arith)
        requires
            2 * (d * u) <= 1_000_001 * u,
            u > 0,
    ;
    assert(-2 * d <= 1_000_001) by (nonlinear_arith)
        requires
            -2 * (d * u) <= 1_000_001 * u,
            u > 0,
    ;
}

proof fn lemma_near_beside_seconds(
    secs: int,
    frac: int,
    u: int,
    p: int,
    m: int,
    part: int,
    v: int,
)
    requires
        u >= 1_000_000_000,
        p >= 0x40000,
        2 * (m * 1_000_000_000 - frac * u) <= 1_000_000_000,
        2 * (frac * u - m * 1_000_000_000) <= 1_000_000_000,
        2 * (part * u - m * p) <= u,
        2 * (m * p - part * u) <= u,
        2 * (v * p - (secs * p + part) * 1000) <= p,
        2 * ((secs * p + part) * 1000 - v * p) <= p,
    ensures
        v * 1_000_000 - (secs * 1_000_000_000 + frac) <= 502_000,
        secs * 1_000_000_000 + frac - v * 1_000_000 <= 502_000,
{
    // The part below one second, in units of 1/p seconds, off by less than one unit.
    let e = part * 1_000_000_000 - frac * p;
    assert(e * u == 1_000_000_000 * (part * u) - p * (frac * u)) by (nonlinear_arith)
        requires
            e == part * 1_000_000_000 - frac * p,
    ;
    assert(1_000_000_000 * (m * p) == p * (m * 1_000_000_000)) by (nonlinear_arith);
    let g = m * 1_000_000_000 - frac * u;
    assert(p * (m * 1_000_000_000) - p * (frac * u) == p * g) by (nonlinear_arith)
        requires
            g == m * 1_000_000_000 - frac * u,
    ;
    assert(2 * (p * g) <= p * 1_000_000_000 && -2 * (p * g) <= p * 1_000_000_000)
        by (nonlinear_arith)
        requires
            2 * g <= 1_000_000_000,
            -2 * g <= 1_000_000_000,
            p > 0,
    ;
    assert(p * 1_000_000_000 <= p * u) by (nonlinear_arith)
        requires
            u >= 1_000_000_000,
            p > 0,
    ;
    let w = 1_000_000_000 + p;
    assert(w * u == 1_000_000_000 * u + p * u) by (nonlinear_arith)
        requires
            w == 1_000_000_000 + p,
    ;
    assert(2 * (e * u) <= w * u && -2 * (e * u) <= w * u);
    assert(2 * e <= w && -2 * e <= w) by (nonlinear_arith)
        requires
            2 * (e * u) <= w * u,
            -2 * (e * u) <= w * u,
            u > 0,
    ;
    let d = v * 1_000_000 - (secs * 1_000_000_000 + frac);
    assert(d * p == 1_000_000 * (v * p) - 1_000_000_000 * (secs * p) - frac * p)
        by (nonlinear_arith)
        requires
            d == v * 1_000_000 - (secs * 1_000_000_000 + frac),
    ;
    assert(2 * (d * p) <= 1_000_000 * p + w && -2 * (d * p) <= 1_000_000 * p + w);
    assert(1_000_000_000 <= 3_999 * p);
    assert(2 * (d * p) <= 1_004_000 * p && -2 * (d * p) <= 1_004_000 * p);
    assert(d <= 502_000 && -d <= 502_000) by (nonlinear_arith)
        requires
            2 * (d * p) <= 1_004_000 * p,
            -2 * (d * p) <= 1_004_000 * p,
            p > 0,
    ;
}

/// A span is told to the nearest thousandth of a second: what is printed is off by half
/// of one at most, apart from two microseconds that a double may lose next to very many
/// whole seconds. Whole seconds are told exactly.
pub proof fn a_span_is_told_to_the_nearest_thousandth(e: Elapsed)
    ensures
        thousandths(e.nanos as nat) * 1_000_000 - e.nanos <= 502_000,
        e.nanos - thousandths(e.nanos as nat) * 1_000_000 <= 502_000,
        e.nanos < 1_000_000_000 ==> thousandths(e.nanos as nat) * 1_000_000 - e.nanos <= 500_000
            && e.nanos - thousandths(e.nanos as nat) * 1_000_000 <= 500_000,
        e.nanos % 1_000_000_000 == 0 ==> thousandths(e.nanos as nat) * 1_000_000 == e.nanos,
{
    let nanos = e.nanos as nat;
    let secs = nanos / NANOS as nat;
    let frac = nanos % NANOS as nat;
    if frac > 0 {
        let k = fraction_places(frac, 53);
        lemma_fraction_places(frac, 53);
        lemma_places_wide(k);
        let u = pow2(k);
        rounding_is_to_the_nearest(frac * u, NANOS as nat);
        let m = round_half_even(frac * u, NANOS as nat);
        if secs == 0 {
            rounding_is_to_the_nearest(m * 1000, u);
            lemma_near_below_a_second(
                frac as int,
                u as int,
                m as int,
                round_half_even(m * 1000, u) as int,
            );
        } else {
            lemma2_to64();
            lemma2_to64_rest();
            lemma_places_beside(secs, 52, 18);
            let p = places_beside(secs, 52);
            let w = pow2(p);
            if p > 18 {
                lemma_pow2_strictly_increases(18, p);
            }
            rounding_is_to_the_nearest(m * w, u);
            let part = round_half_even(m * w, u);
            rounding_is_to_the_nearest((secs * w + part) * 1000, w);
            lemma_near_beside_seconds(
                secs as int,
                frac as int,
                u as int,
                w as int,
                m as int,
                part as int,
                round_half_even((secs * w + part) * 1000, w) as int,
            );
        }
    }
}

/// A span in seconds is printed as its thousandths: the digits in front of the point
/// are the whole seconds, and the three behind it the rest.
pub proof fn a_printed_span_reads_back(nanos: nat)
    ensures
        ({
            let s = seconds_text(nanos);
            let n = s.len() - 4;
            &&& n >= 1
            &&& s[n] == '.'
            &&& text::digits_value(s.take(n)) * 1000 + text::digits_value(s.skip(n + 1))
                == thousandths(nanos)
        }),
{
    let ms = thousandths(nanos);
    let s = seconds_text(nanos);
    let n = s.len() - 4;
    text::decimal_digits_keep_the_value(ms / 1000);
    text::three_digits_keep_the_value(ms);
    assert(s.take(n) =~= text::decimal(ms / 1000));
    assert(s.skip(n + 1) =~= text::three_digits(ms));
}

/// A time of day is printed as what a clock shows: hours, minutes and seconds add up to
/// the seconds since local midnight, and the three digits behind the point are the
/// milliseconds of the second. Without its marks it reads the same.
pub proof fn a_printed_time_reads_back(t: WallTime)
    requires
        t.valid(),
    ensures
        ({
            let s = clock_text(t);
            &&& s.len() == 12
            &&& s[2] == ':' && s[5] == ':' && s[8] == '.'
            &&& text::digits_value(s.subrange(0, 2)) < 24
            &&& text::digits_value(s.subrange(3, 5)) < 60
            &&& text::digits_value(s.subrange(6, 8)) < 60
            &&& text::digits_value(s.subrange(0, 2)) * 3600 + text::digits_value(s.subrange(3, 5))
                * 60 + text::digits_value(s.subrange(6, 8)) == (t.secs + t.offset) % 86_400
            &&& text::digits_value(s.subrange(9, 12)) == t.nanos / 1_000_000
            &&& compact_text(t) == s.subrange(0, 2) + s.subrange(3, 5) + s.subrange(6, 8)
        }),
{
    let d = t.second_of_day();
    lemma_clock_parts(
        text::two_digits(d / 3600),
        text::two_digits(d / 60 % 60),
        text::two_digits(d % 60),
        text::three_digits(t.nanos as nat / 1_000_000),
    );
    lemma_clock_values(d, t.nanos as nat);
}

proof fn lemma_clock_parts(h: Seq<char>, m: Seq<char>, s: Seq<char>, ms: Seq<char>)
    requires
        h.len() == 2,
        m.len() == 2,
        s.len() == 2,
        ms.len() == 3,
    ensures
        ({
            let c = h + seq![':'] + m + seq![':'] + s + seq!['.'] + ms;
            &&& c.len() == 12
            &&& c[2] == ':' && c[5] == ':' && c[8] == '.'
            &&& c.subrange(0, 2) == h
            &&& c.subrange(3, 5) == m
            &&& c.subrange(6, 8) == s
            &&& c.subrange(9, 12) == ms
        }),
{
    let c = h + seq![':'] + m + seq![':'] + s + seq!['.'] + ms;
    assert(c.subrange(0, 2) =~= h);
    assert(c.subrange(3, 5) =~= m);
    assert(c.subrange(6, 8) =~= s);
    assert(c.subrange(9, 12) =~= ms);
}

proof fn lemma_clock_values(d: nat, nanos: nat)
    requires
        d < 86_400,
        nanos < 1_000_000_000,
    ensures
        ({
            let h = text::digits_value(text::two_digits(d / 3600));
            let m = text::digits_value(text::two_digits(d / 60 % 60));
            let s = text::digits_value(text::two_digits(d % 60));
            &&& h < 24 && m < 60 && s < 60
            &&& h * 3600 + m * 60 + s == d
        }),
        text::digits_value(text::three_digits(nanos / 1_000_000)) == nanos / 1_000_000,
{
    lemma_day_parts(d);
    lemma_two_digits(d / 3600);
    lemma_two_digits(d / 60 % 60);
    lemma_two_digits(d % 60);
    lemma_three_digits(nanos / 1_000_000);
}

proof fn lemma_two_digits(n: nat)
    requires
        n < 100,
    ensures
        text::digits_value(text::two_digits(n)) == n,
{
    text::two_digits_keep_the_value(n);
}

proof fn lemma_three_digits(n: nat)
    requires
        n < 1000,
    ensures
        text::digits_value(text::three_digits(n)) == n,
{
    text::three_digits_keep_the_value(n);
}

proof fn lemma_day_parts(d: nat)
    requires
        d < 86_400,
    ensures
        d / 3600 < 24,
        d / 60 % 60 < 60,
        d % 60 < 60,
        d / 3600 * 3600 + d / 60 % 60 * 60 + d % 60 == d,
{
    let q = d / 60;
    assert(d / 3600 == q / 60);
    assert(q == 60 * (q / 60) + q % 60);
}

} // verus!
