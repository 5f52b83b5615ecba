//! Clock arithmetic: turning counter ticks into nanoseconds, and a timed
//! sample into a counter frequency.

use vstd::prelude::*;

verus! {

pub const NANOS_PER_SEC: u64 = 1_000_000_000;

/// The frequency to assume when a calibration gives none.
pub const FALLBACK_HZ: u64 = 3_000_000_000;

/// `ticks` of a counter that runs at `hz`, in nanoseconds, cut to 64 bits. A
/// frequency of zero stands for a counter that was never calibrated and is
/// taken to run at 3 GHz.
pub open spec fn nanos(ticks: u64, hz: u64) -> u64 {
    if hz == 0 {
        ticks / 3
    } else {
        ((ticks * NANOS_PER_SEC / hz as int) % 0x1_0000_0000_0000_0000) as u64
    }
}

/// See [`nanos`].
pub fn ticks_to_ns(ticks: u64, hz: u64) -> (ns: u64)
    ensures
        ns == nanos(ticks, hz),
        hz == 0 ==> ns == ticks / 3,
        hz > 0 ==> ns == (ticks * 1_000_000_000 / hz as int) % 0x1_0000_0000_0000_0000,
{
    if hz == 0 {
        return ticks / 3;
    }
    let whole: u128 = ticks as u128 * 1_000_000_000 / hz as u128;
    (whole % 0x1_0000_0000_0000_0000) as u64
}

/// The frequency of a counter that read `start_ticks` and then `end_ticks`
/// with `elapsed_ns` between the two. The counter may have wrapped around in
/// between, and the product stops at the end of the range.
pub open spec fn sampled_hz(start_ticks: u64, end_ticks: u64, elapsed_ns: u64) -> u64 {
    let elapsed = if end_ticks >= start_ticks {
        end_ticks - start_ticks
    } else {
        end_ticks - start_ticks + 0x1_0000_0000_0000_0000
    };
    let scaled = if elapsed * NANOS_PER_SEC > u64::MAX {
        u64::MAX as int
    } else {
        elapsed * NANOS_PER_SEC
    };
    if elapsed_ns == 0 {
        FALLBACK_HZ
    } else {
        (scaled / elapsed_ns as int) as u64
    }
}

/// See [`sampled_hz`].
pub fn calibrated_hz(start_ticks: u64, end_ticks: u64, elapsed_ns: u64) -> (hz: u64)
    ensures
        hz == sampled_hz(start_ticks, end_ticks, elapsed_ns),
{
    let elapsed: u64 = end_ticks.wrapping_sub(start_ticks);
    let scaled: u64 = match elapsed.checked_mul(NANOS_PER_SEC) {
        Some(scaled) => scaled,
        None => u64::MAX,
    };
    if elapsed_ns == 0 {
        FALLBACK_HZ
    } else {
        scaled / elapsed_ns
    }
}

/// An uncalibrated counter reads as one calibrated at the fallback frequency.
pub proof fn law_uncalibrated_means_fallback(ticks: u64)
    ensures
        nanos(ticks, 0) == nanos(ticks, FALLBACK_HZ),
{
    assert(ticks * 1_000_000_000 / 3_000_000_000 == ticks as int / 3);
}

/// Time does not run backward: more ticks are never fewer nanoseconds, as
/// long as the result fits in 64 bits.
pub proof fn law_nanos_are_monotone(a: u64, b: u64, hz: u64)
    requires
        a <= b,
        hz > 0 ==> b * NANOS_PER_SEC / hz as int <= u64::MAX,
    ensures
        nanos(a, hz) <= nanos(b, hz),
{
    if hz > 0 {
        vstd::arithmetic::div_mod::lemma_div_is_ordered(
            a * NANOS_PER_SEC,
            b * NANOS_PER_SEC,
            hz as int,
        );
        vstd::arithmetic::div_mod::lemma_div_pos_is_pos(a * NANOS_PER_SEC, hz as int);
    }
}

/// Nanoseconds are what `ticks` of a counter at `hz` last, rounded down: so
/// many nanoseconds take no more than `ticks`, and one more takes longer. Past
/// 64 bits the result is cut.
pub proof fn law_nanos_last_as_long_as_the_ticks(ticks: u64, hz: u64)
    requires
        hz > 0,
    ensures
        nanos(ticks, hz) == (ticks * 1_000_000_000 / hz as int) % 0x1_0000_0000_0000_0000,
        ticks * 1_000_000_000 < 0x1_0000_0000_0000_0000 * hz ==> {
            &&& nanos(ticks, hz) * hz <= ticks * 1_000_000_000
            &&& ticks * 1_000_000_000 < (nanos(ticks, hz) + 1) * hz
        },
{
    let scaled: int = ticks * 1_000_000_000;
    let whole: int = scaled / hz as int;
    vstd::arithmetic::div_mod::lemma_fundamental_div_mod(scaled, hz as int);
    vstd::arithmetic::div_mod::lemma_div_pos_is_pos(scaled, hz as int);
    assert(whole * hz <= scaled < (whole + 1) * hz) by (nonlinear_arith)
        requires
            scaled == hz * whole + scaled % (hz as int),
            0 <= scaled % (hz as int) < hz,
            hz > 0,
    ;
    if scaled < 0x1_0000_0000_0000_0000 * hz {
        assert(whole < 0x1_0000_0000_0000_0000) by (nonlinear_arith)
            requires
                whole * hz <= scaled,
                scaled < 0x1_0000_0000_0000_0000 * hz,
                hz > 0,
        ;
    }
}

/// The ticks of a known time give it back: `secs` seconds of a counter at `hz`
/// are so many nanoseconds.
pub proof fn law_seconds_read_back(secs: u64, hz: u64)
    requires
        hz > 0,
        secs * hz <= u64::MAX,
        secs * 1_000_000_000 <= u64::MAX,
    ensures
        nanos((secs * hz) as u64, hz) == secs * 1_000_000_000,
{
    let ticks = secs * hz;
    assert(ticks * 1_000_000_000 == (secs * 1_000_000_000) * hz) by (nonlinear_arith)
        requires
            ticks == secs * hz,
    ;
    vstd::arithmetic::div_mod::lemma_div_by_multiple(secs * 1_000_000_000, hz as int);
}

/// A sampled frequency is the ticks that went by per second, rounded down:
/// over the elapsed time it gives no more than those ticks, and one hertz more
/// gives more. The ticks are counted around the end of the counter's range. A
/// product past 64 bits counts as the largest there is, and no elapsed time
/// gives the fallback.
pub proof fn law_frequency_is_ticks_per_second(start_ticks: u64, end_ticks: u64, elapsed_ns: u64)
    ensures
        elapsed_ns == 0 ==> sampled_hz(start_ticks, end_ticks, elapsed_ns) == 3_000_000_000,
        elapsed_ns > 0 ==> ({
            let hz = sampled_hz(start_ticks, end_ticks, elapsed_ns);
            let scaled = ((end_ticks - start_ticks) % 0x1_0000_0000_0000_0000) * 1_000_000_000;
            &&& scaled <= u64::MAX ==> hz * elapsed_ns <= scaled < (hz + 1) * elapsed_ns
            &&& scaled > u64::MAX ==> hz * elapsed_ns <= u64::MAX < (hz + 1) * elapsed_ns
        }),
{
    if elapsed_ns > 0 {
        let hz = sampled_hz(start_ticks, end_ticks, elapsed_ns);
        let product = ((end_ticks - start_ticks) % 0x1_0000_0000_0000_0000) * 1_000_000_000;
        let scaled = if product > u64::MAX {
            u64::MAX as int
        } else {
            product
        };
        vstd::arithmetic::div_mod::lemma_fundamental_div_mod(scaled, elapsed_ns as int);
        vstd::arithmetic::div_mod::lemma_div_pos_is_pos(scaled, elapsed_ns as int);
        vstd::arithmetic::div_mod::lemma_div_is_ordered_by_denominator(scaled, 1, elapsed_ns as int);
        assert(hz == scaled / elapsed_ns as int);
        assert(hz * elapsed_ns <= scaled < (hz + 1) * elapsed_ns) by (nonlinear_arith)
            requires
                scaled == elapsed_ns * hz + scaled % (elapsed_ns as int),
                0 <= scaled % (elapsed_ns as int) < elapsed_ns,
                elapsed_ns > 0,
        ;
    }
}

} // verus!
