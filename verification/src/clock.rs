//! GPSPI2 clock-divider arithmetic for the hardware SWD wire.
//!
//! A wrong divider is the difference between a 4 MHz SWD wire and one fast
//! enough to violate the target's rise time.

use vstd::prelude::*;

verus! {

/// GPSPI2's master clock source with `mst_clk_sel` set to PLL_F80M.
pub const SOURCE_CLOCK_HZ: u32 = 80_000_000;

/// Above this, flying bench leads stop being trustworthy. A board that puts an
/// analog switch or a long harness between the probe and the target is slower
/// still, and should ask for a lower clock rather than raise this.
pub const MAX_CLOCK_HZ: u32 = 20_000_000;

pub const MIN_CLOCK_HZ: u32 = 100_000;

/// Fast enough that the transport, not the wire, is the limit, and still inside
/// what unshielded bench leads carry reliably.
pub const DEFAULT_CLOCK_HZ: u32 = 8_000_000;

/// A programmed `SPI_CLOCK` value and the SWCLK frequency it produces.
#[derive(Clone, Copy, Debug, Eq, PartialEq, Structural)]
pub struct Divider {
    pub register: u32,
    pub clock_hz: u32,
}

/// A request brought into the supported range.
pub open spec fn clamped(target_hz: u32) -> u32 {
    if target_hz < MIN_CLOCK_HZ {
        MIN_CLOCK_HZ
    } else if target_hz > MAX_CLOCK_HZ {
        MAX_CLOCK_HZ
    } else {
        target_hz
    }
}

/// The clock that the divider `pre * n` makes.
pub open spec fn divided(source_hz: u32, pre: int, n: int) -> int {
    source_hz as int / (pre * n)
}

/// Is `pre * n` a divider that the peripheral has?
pub open spec fn is_divider(pre: int, n: int) -> bool {
    1 <= pre <= 16 && 2 <= n <= 64
}

/// Is one divider tried before another: with a lower `n`, or the same and a
/// lower `pre`?
pub open spec fn before(pre: int, n: int, other_pre: int, other_n: int) -> bool {
    n < other_n || (n == other_n && pre < other_pre)
}

/// The register for a divider. `n` also sets the period in source cycles, so
/// the high phase is programmed at `n / 2` for an even mark-space ratio.
pub open spec fn register_of(pre: int, n: int) -> int {
    (pre - 1) * 262144 + (n - 1) * 4096 + (n / 2 - 1) * 64 + (n - 1)
}

/// Is `clock` the fastest that no divider before `pre * n` exceeds the target
/// with, made by the first divider that makes it, if any does?
pub open spec fn best_so_far(
    source_hz: u32,
    target: u32,
    clock: u32,
    best_pre: u32,
    best_n: u32,
    pre: int,
    n: int,
) -> bool {
    &&& is_divider(best_pre as int, best_n as int)
    &&& clock <= target
    &&& forall|p: int, m: int|
        is_divider(p, m) && before(p, m, pre, n) && #[trigger] divided(source_hz, p, m) <= target
            ==> divided(source_hz, p, m) <= clock
    &&& clock == 0 ==> best_pre == 1 && best_n == 2
    &&& clock > 0 ==> divided(source_hz, best_pre as int, best_n as int) == clock && before(
        best_pre as int,
        best_n as int,
        pre,
        n,
    )
    &&& clock > 0 ==> forall|p: int, m: int|
        is_divider(p, m) && before(p, m, best_pre as int, best_n as int) ==> #[trigger] divided(
            source_hz,
            p,
            m,
        ) != clock
}

/// Is this the divider for a request: of those that do not exceed it, the
/// fastest, and of those as fast, the first?
pub open spec fn chosen(source_hz: u32, target_hz: u32, divider: Divider) -> bool {
    exists|pre: u32, n: u32| #[trigger] chosen_as(source_hz, target_hz, divider, pre, n)
}

/// Is this the divider for a request, and `pre * n` what it divides by?
pub open spec fn chosen_as(
    source_hz: u32,
    target_hz: u32,
    divider: Divider,
    pre: u32,
    n: u32,
) -> bool {
    best_so_far(source_hz, clamped(target_hz), divider.clock_hz, pre, n, 1, 65) && divider.register
        == register_of(pre as int, n as int)
}

/// Chooses the `SPI_CLOCK` divider closest to `target_hz` without exceeding it.
///
/// The peripheral divides the source clock by `pre * n`, where `pre` is 1..=16
/// and `n` is 2..=64. Never rounded up: overclocking the wire is a hardware
/// risk, and being a few percent slow costs nothing.
#[must_use]
pub fn divider_for(source_hz: u32, target_hz: u32) -> (divider: Divider)
    ensures
        chosen(source_hz, target_hz, divider),
{
    let target: u32 = if target_hz < MIN_CLOCK_HZ {
        MIN_CLOCK_HZ
    } else if target_hz > MAX_CLOCK_HZ {
        MAX_CLOCK_HZ
    } else {
        target_hz
    };
    let mut best_pre: u32 = 1;
    let mut best_n: u32 = 2;
    let mut best_clock: u32 = 0;
    let mut n: u32 = 2;
    while n <= 64
        invariant
            2 <= n <= 65,
            best_so_far(source_hz, target, best_clock, best_pre, best_n, 1, n as int),
        decreases 65 - n,
    {
        let mut pre: u32 = 1;
        while pre <= 16
            invariant
                2 <= n <= 64,
                1 <= pre <= 17,
                best_so_far(source_hz, target, best_clock, best_pre, best_n, pre as int, n as int),
            decreases 17 - pre,
        {
            assert(1 <= pre * n <= 16 * 64) by (nonlinear_arith)
                requires
                    1 <= pre <= 16,
                    2 <= n <= 64,
            ;
            let candidate: u32 = source_hz / (pre * n);
            assert(candidate == divided(source_hz, pre as int, n as int));
            let ghost (old_pre, old_n) = (best_pre, best_n);
            if candidate <= target && candidate > best_clock {
                best_clock = candidate;
                best_pre = pre;
                best_n = n;
            }
            proof {
                assert forall|p: int, m: int|
                    is_divider(p, m) && before(p, m, pre + 1, n as int) && #[trigger] divided(
                        source_hz,
                        p,
                        m,
                    ) <= target implies divided(source_hz, p, m) <= best_clock by {
                    if p == pre && m == n {
                    } else {
                        assert(before(p, m, pre as int, n as int));
                    }
                }
            }
            pre += 1;
        }
        proof {
            assert forall|p: int, m: int| is_divider(p, m) && before(p, m, 1, n + 1) implies before(
                p,
                m,
                17,
                n as int,
            ) by {}
        }
        n += 1;
    }
    let high: u32 = best_n / 2;
    let register: u32 = (best_pre - 1) * 262144 + (best_n - 1) * 4096 + (high - 1) * 64 + (best_n
        - 1);
    assert(register == register_of(best_pre as int, best_n as int));
    let divider = Divider { register, clock_hz: best_clock };
    assert(chosen_as(source_hz, target_hz, divider, best_pre, best_n));
    divider
}

/// No divider exceeds the request it was chosen for, and each of its fields
/// stays within its width: the bits above them, the clock bypass among them,
/// are clear, and the high phase is half the period.
pub proof fn law_a_divider_never_exceeds_the_request(
    source_hz: u32,
    target_hz: u32,
    divider: Divider,
)
    requires
        chosen(source_hz, target_hz, divider),
    ensures
        divider.clock_hz <= clamped(target_hz),
        divider.register < 0x40_0000,
        ({
            let n = divider.register / 4096 % 64 + 1;
            divider.register / 64 % 64 + 1 == n / 2 && divider.register % 64 == n - 1
        }),
{
    let (pre, n) = choose|pre: u32, n: u32| chosen_as(source_hz, target_hz, divider, pre, n);
    let register = divider.register as int;
    let low = (n / 2 - 1) * 64 + (n - 1);
    assert(0 <= low < 4096);
    assert(register == ((pre - 1) * 64 + (n - 1)) * 4096 + low);
    assert(register / 4096 == (pre - 1) * 64 + (n - 1));
    assert(register % 4096 == low);
    assert(register / 64 % 64 == low / 64) by {
        assert(register / 64 == ((pre - 1) * 64 + (n - 1)) * 64 + low / 64);
    }
    assert(register % 64 == low % 64);
}

/// On this peripheral's own source clock every request has a divider.
pub proof fn law_every_request_has_a_divider(target_hz: u32, divider: Divider)
    requires
        chosen(SOURCE_CLOCK_HZ, target_hz, divider),
    ensures
        divider.clock_hz >= 78125,
{
    assert(16int * 64 == 1024);
    assert(divided(SOURCE_CLOCK_HZ, 16, 64) == 78125);
    assert(is_divider(16, 64) && before(16, 64, 1, 65));
}

/// The choice is unique.
pub proof fn law_a_request_has_one_divider(
    source_hz: u32,
    target_hz: u32,
    one: Divider,
    other: Divider,
)
    requires
        chosen(source_hz, target_hz, one),
        chosen(source_hz, target_hz, other),
    ensures
        one == other,
{
    let (p, n) = choose|pre: u32, n: u32| chosen_as(source_hz, target_hz, one, pre, n);
    let (q, m) = choose|pre: u32, n: u32| chosen_as(source_hz, target_hz, other, pre, n);
    assert(divided(source_hz, p as int, n as int) == divided(source_hz, p as int, n as int));
    assert(divided(source_hz, q as int, m as int) == divided(source_hz, q as int, m as int));
}

/// The register makes the clock that is told: its fields from bit 18 and from
/// bit 12 on are one less than what the source is divided by. No other setting
/// of these fields makes a faster one that the request, held between 100 kHz and
/// 20 MHz, allows.
pub proof fn law_the_register_makes_the_clock(
    source_hz: u32,
    target_hz: u32,
    divider: Divider,
    other_pre: int,
    other_n: int,
)
    requires
        chosen(source_hz, target_hz, divider),
        1 <= other_pre <= 16,
        2 <= other_n <= 64,
    ensures
        ({
            let pre = divider.register / 262144 + 1;
            let n = divider.register / 4096 % 64 + 1;
            let wanted = if target_hz < 100_000 {
                100_000u32
            } else if target_hz > 20_000_000 {
                20_000_000u32
            } else {
                target_hz
            };
            &&& 1 <= pre <= 16 && 2 <= n <= 64
            &&& divider.clock_hz > 0 ==> divider.clock_hz == source_hz as int / (pre * n)
            &&& divider.clock_hz <= wanted
            &&& source_hz as int / (other_pre * other_n) <= wanted ==> source_hz as int / (
            other_pre * other_n) <= divider.clock_hz
        }),
{
    let (pre, n) = choose|pre: u32, n: u32| chosen_as(source_hz, target_hz, divider, pre, n);
    let register = divider.register as int;
    let low = (n / 2 - 1) * 64 + (n - 1);
    assert(0 <= low < 4096);
    assert(register == ((pre - 1) * 64 + (n - 1)) * 4096 + low);
    assert(register / 4096 == (pre - 1) * 64 + (n - 1));
    assert(register / 4096 % 64 == n - 1);
    assert(register / 262144 == pre - 1) by {
        assert(register / 262144 == (register / 4096) / 64);
    }
    assert(divided(source_hz, other_pre, other_n) == source_hz as int / (other_pre * other_n));
    assert(is_divider(other_pre, other_n) && before(other_pre, other_n, 1, 65));
}

/// The peripheral's source clock is 80 MHz and the wire starts at 8 MHz, which
/// it makes exactly.
pub proof fn law_the_wire_starts_at_eight_megahertz(divider: Divider)
    requires
        chosen(SOURCE_CLOCK_HZ, DEFAULT_CLOCK_HZ, divider),
    ensures
        divider.clock_hz == 8_000_000,
{
    law_the_register_makes_the_clock(SOURCE_CLOCK_HZ, DEFAULT_CLOCK_HZ, divider, 1, 10);
    assert(80_000_000int / (1int * 10int) == 8_000_000);
}

} // verus!
