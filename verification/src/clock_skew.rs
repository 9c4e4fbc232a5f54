use vstd::prelude::*;

use crate::clock::nanos;

verus! {

/// Largest clock offset, in milliseconds, at which signed requests are still sent.
pub const MAX_CLOCK_SKEW_MS: i64 = 1000;

/// Seconds from the NTP epoch (1900) to the Unix epoch (1970).
pub const NTP_UNIX_OFFSET: u64 = 2_208_988_800;

/// Result of an NTP clock check.
#[derive(Debug, Clone, Copy)]
pub struct ClockSkew {
    /// Offset of the local clock from the server's (positive: local is ahead), in ms.
    pub offset_ms: i64,
    /// Round-trip delay in ms.
    pub delay_ms: u64,
}

impl ClockSkew {
    /// Whether the offset lies within `MAX_CLOCK_SKEW_MS` either way.
    pub fn is_safe(&self) -> (r: bool)
        ensures
            r == (-MAX_CLOCK_SKEW_MS <= self.offset_ms <= MAX_CLOCK_SKEW_MS),
    {
        -MAX_CLOCK_SKEW_MS <= self.offset_ms && self.offset_ms <= MAX_CLOCK_SKEW_MS
    }
}

/// Nanoseconds since the Unix epoch of a 64-bit NTP timestamp (32 bits of
/// seconds since 1900, 32 bits of fraction); times before 1970 read as 0 s.
pub open spec fn spec_ntp_to_nanos(raw: u64) -> int {
    let secs = raw as int / 0x1_0000_0000;
    let frac = raw as int % 0x1_0000_0000;
    (if secs >= NTP_UNIX_OFFSET { secs - NTP_UNIX_OFFSET } else { 0 }) * 1_000_000_000 + (frac * 1_000_000_000)
        / 0x1_0000_0000
}

/// The 64-bit NTP timestamp of a Unix time in nanoseconds; the seconds
/// field wraps every 2^32 seconds (the NTP era).
pub open spec fn spec_ntp_from_nanos(n: u64) -> int {
    let secs = n as int / 1_000_000_000 + NTP_UNIX_OFFSET;
    let frac = ((n as int % 1_000_000_000) * 0x1_0000_0000) / 1_000_000_000;
    (secs % 0x1_0000_0000) * 0x1_0000_0000 + frac
}

/// Converts an NTP 64-bit timestamp to nanoseconds since the Unix epoch.
pub fn ntp_to_nanos(raw: u64) -> (r: u64)
    ensures
        r == spec_ntp_to_nanos(raw),
{
    let hi = raw >> 32u64;
    let lo = raw & 0xFFFF_FFFFu64;
    assert(hi == raw / 0x1_0000_0000 && lo == raw % 0x1_0000_0000) by (bit_vector)
        requires
            hi == raw >> 32u64,
            lo == raw & 0xFFFF_FFFFu64,
    ;
    let secs = hi.saturating_sub(NTP_UNIX_OFFSET);
    let prod: u128 = (lo as u128) * 1_000_000_000u128;
    let frac_ns128 = prod >> 32u128;
    assert(frac_ns128 == prod / 0x1_0000_0000) by (bit_vector)
        requires
            frac_ns128 == prod >> 32u128,
    ;
    let frac_ns = frac_ns128 as u64;
    assert(secs * 1_000_000_000 <= (0xFFFF_FFFFu64 as int) * 1_000_000_000) by (nonlinear_arith)
        requires
            secs <= 0xFFFF_FFFF,
    ;
    secs * 1_000_000_000 + frac_ns
}

/// The NTP 64-bit timestamp of a Unix time given in nanoseconds.
pub fn ntp_from_unix_nanos(n: u64) -> (r: u64)
    ensures
        r == spec_ntp_from_nanos(n),
{
    let secs = n / 1_000_000_000 + NTP_UNIX_OFFSET;
    let sub = n % 1_000_000_000;
    let frac = (sub << 32u64) / 1_000_000_000;
    assert(sub << 32u64 == sub * 0x1_0000_0000) by (bit_vector)
        requires
            sub < 1_000_000_000,
    ;
    assert(frac < 0x1_0000_0000) by (nonlinear_arith)
        requires
            frac == (sub * 0x1_0000_0000) / 1_000_000_000,
            sub < 1_000_000_000,
    ;
    let r = (secs << 32u64) | frac;
    assert(r == (secs % 0x1_0000_0000) * 0x1_0000_0000 + frac) by (bit_vector)
        requires
            r == (secs << 32u64) | frac,
            frac < 0x1_0000_0000,
    ;
    r
}

/// The current time as an NTP 64-bit timestamp.
pub fn ntp_now() -> (r: u64)
    ensures
        exists|n: u64| r == #[trigger] spec_ntp_from_nanos(n),
{
    let n = nanos();
    ntp_from_unix_nanos(n)
}

/// Integer division rounding toward zero.
pub open spec fn div_trunc(x: int, d: int) -> int {
    if x >= 0 {
        x / d
    } else {
        -((-x) / d)
    }
}

fn i128_div_trunc(x: i128, d: i128) -> (r: i128)
    requires
        d > 0,
        x > i128::MIN,
    ensures
        r == div_trunc(x as int, d as int),
{
    if x >= 0 {
        x / d
    } else {
        -((-x) / d)
    }
}

/// Clock skew from one SNTP exchange: the request left at `t1_ns` and the
/// reply arrived at `t4_ns` (local Unix nanoseconds); the server received it
/// at NTP time `t2_raw` and answered at `t3_raw`.
///
/// Offset `((t2 - t1) + (t3 - t4)) / 2` and delay `(t4 - t1) - (t3 - t2)`,
/// both in whole milliseconds rounded toward zero; a negative delay reads as 0.
pub fn skew_from_exchange(t1_ns: u64, t2_raw: u64, t3_raw: u64, t4_ns: u64) -> (s: ClockSkew)
    ensures
        ({
            let t2 = spec_ntp_to_nanos(t2_raw);
            let t3 = spec_ntp_to_nanos(t3_raw);
            let offset = div_trunc((t2 - t1_ns) + (t3 - t4_ns), 2);
            let delay = (t4_ns - t1_ns) - (t3 - t2);
            &&& s.offset_ms == div_trunc(offset, 1_000_000)
            &&& s.delay_ms == (if delay > 0 { delay } else { 0 }) / 1_000_000
        }),
{
    assert(spec_ntp_to_nanos(t2_raw) <= 0x1_0000_0000 * 1_000_000_000) by (nonlinear_arith);
    assert(spec_ntp_to_nanos(t3_raw) <= 0x1_0000_0000 * 1_000_000_000) by (nonlinear_arith);
    let t2 = ntp_to_nanos(t2_raw) as i128;
    let t3 = ntp_to_nanos(t3_raw) as i128;
    let t1 = t1_ns as i128;
    let t4 = t4_ns as i128;
    let offset_ns = i128_div_trunc((t2 - t1) + (t3 - t4), 2);
    let delay_ns = (t4 - t1) - (t3 - t2);
    let offset_ms = i128_div_trunc(offset_ns, 1_000_000);
    let delay_pos = if delay_ns > 0 { delay_ns } else { 0 };
    let delay_ms = delay_pos / 1_000_000;
    ClockSkew { offset_ms: offset_ms as i64, delay_ms: delay_ms as u64 }
}

/// Within the current NTP era, converting a Unix time to NTP and back loses
/// at most one nanosecond, and never moves it forward.
pub proof fn lemma_ntp_roundtrip(n: u64)
    requires
        n as int / 1_000_000_000 + NTP_UNIX_OFFSET < 0x1_0000_0000,
    ensures
        n - 1 <= spec_ntp_to_nanos(spec_ntp_from_nanos(n) as u64) <= n,
{
    let s = n as int / 1_000_000_000;
    let r = n as int % 1_000_000_000;
    let m: int = 0x1_0000_0000;
    let f = (r * m) / 1_000_000_000;
    assert(0 <= f < m) by (nonlinear_arith)
        requires
            0 <= r < 1_000_000_000,
            f == (r * m) / 1_000_000_000,
            m == 0x1_0000_0000,
    ;
    let secs = s + NTP_UNIX_OFFSET;
    assert(secs % m == secs);
    let raw = secs * m + f;
    assert(spec_ntp_from_nanos(n) == raw);
    assert(0 <= raw < m * m) by (nonlinear_arith)
        requires
            0 <= secs < m,
            0 <= f < m,
            raw == secs * m + f,
    ;
    assert(raw / m == secs && raw % m == f) by (nonlinear_arith)
        requires
            raw == secs * m + f,
            0 <= f < m,
            m > 0,
    ;
    let back = (f * 1_000_000_000) / m;
    assert(r - 1 <= back <= r) by (nonlinear_arith)
        requires
            f == (r * m) / 1_000_000_000,
            back == (f * 1_000_000_000) / m,
            0 <= r < 1_000_000_000,
            m == 0x1_0000_0000,
    ;
    assert(n as int == s * 1_000_000_000 + r);
}

/// Division rounding toward zero leaves a remainder with the sign of the
/// dividend and smaller than the divisor: `d * div_trunc(x, d)` lies between
/// 0 and `x`, less than `d` away from `x`.
pub proof fn lemma_div_trunc_toward_zero(x: int, d: int)
    requires
        d > 0,
    ensures
        x >= 0 ==> 0 <= x - d * div_trunc(x, d) < d,
        x < 0 ==> -d < x - d * div_trunc(x, d) <= 0,
{
    if x >= 0 {
        vstd::arithmetic::div_mod::lemma_fundamental_div_mod(x, d);
        vstd::arithmetic::div_mod::lemma_mod_pos_bound(x, d);
    } else {
        vstd::arithmetic::div_mod::lemma_fundamental_div_mod(-x, d);
        vstd::arithmetic::div_mod::lemma_mod_pos_bound(-x, d);
        assert(d * (-((-x) / d)) == -(d * ((-x) / d))) by (nonlinear_arith);
    }
}

} // verus!
