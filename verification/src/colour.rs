use vstd::prelude::*;

verus! {

/// Which of the three channel values of a hue sector goes to red, green and
/// blue: `0` is the chroma, `1` the second-largest component, `2` zero.
/// Sectors run from `0` to `5`; every sector from `5` on, and every negative
/// one, is drawn as sector `5`.
pub open spec fn sector_sources(sector: int) -> (int, int, int) {
    if sector == 0 {
        (0, 1, 2)
    } else if sector == 1 {
        (1, 0, 2)
    } else if sector == 2 {
        (2, 0, 1)
    } else if sector == 3 {
        (2, 1, 0)
    } else if sector == 4 {
        (1, 2, 0)
    } else {
        (0, 2, 1)
    }
}

/// The value that source `k` names.
pub open spec fn pick<T>(k: int, chroma: T, second: T, zero: T) -> T {
    if k == 0 {
        chroma
    } else if k == 1 {
        second
    } else {
        zero
    }
}

/// The red, green and blue values of hue sector `sector`, given the sector's
/// chroma, its second-largest component and its zero component.
pub fn hue_channels<T: Copy>(sector: i32, chroma: T, second: T, zero: T) -> (rgb: (T, T, T))
    ensures
        rgb == (
            pick(sector_sources(sector as int).0, chroma, second, zero),
            pick(sector_sources(sector as int).1, chroma, second, zero),
            pick(sector_sources(sector as int).2, chroma, second, zero),
        ),
{
    match sector {
        0 => (chroma, second, zero),
        1 => (second, chroma, zero),
        2 => (zero, chroma, second),
        3 => (zero, second, chroma),
        4 => (second, zero, chroma),
        _ => (chroma, zero, second),
    }
}

/// Every sector sends each of the three values to exactly one channel: its
/// sources are `0`, `1` and `2` in some order.
pub proof fn law_sector_is_permutation(sector: int)
    ensures
        ({
            let (a, b, c) = sector_sources(sector);
            &&& 0 <= a < 3 && 0 <= b < 3 && 0 <= c < 3
            &&& a != b && b != c && a != c
        }),
{
}

/// The six sectors arrange the values in six different ways, so each
/// arrangement belongs to one sector.
pub proof fn law_sectors_differ(s1: int, s2: int)
    requires
        0 <= s1 < 6,
        0 <= s2 < 6,
        s1 != s2,
    ensures
        sector_sources(s1) != sector_sources(s2),
{
}

/// The hue wheel turns through the sectors: in sector `s` of `0..6` the
/// chroma lies on channel `((s + 1) / 2) % 3` (red, green, green, blue, blue,
/// red), the zero on channel `(s / 2 + 2) % 3` (blue, blue, red, red, green,
/// green) and the second component on the channel left over; sectors outside
/// `0..6` are drawn like sector `5`. Channels count red `0`, green `1`, blue `2`.
pub proof fn law_hue_wheel<T>(sector: int, chroma: T, second: T, zero: T)
    ensures
        ({
            let s = if 0 <= sector < 6 {
                sector
            } else {
                5
            };
            let src = sector_sources(sector);
            let rgb = (
                pick(src.0, chroma, second, zero),
                pick(src.1, chroma, second, zero),
                pick(src.2, chroma, second, zero),
            );
            let at = |ch: int|
                if ch == 0 {
                    rgb.0
                } else if ch == 1 {
                    rgb.1
                } else {
                    rgb.2
                };
            let cc = ((s + 1) / 2) % 3;
            let zc = (s / 2 + 2) % 3;
            &&& at(cc) == chroma
            &&& at(zc) == zero
            &&& cc != zc
            &&& at(3 - cc - zc) == second
        }),
{
}

} // verus!
