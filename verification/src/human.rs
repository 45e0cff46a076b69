//! Human-readable rendering of a byte count: a binary unit together with a
//! value carrying two decimal places, computed with exact integer rounding.

use vstd::prelude::*;

verus! {

pub const KILO: u64 = 1024;

pub const MEGA: u64 = 1048576;

pub const GIGA: u64 = 1073741824;

/// Binary unit a byte count is displayed in.
#[derive(Clone, Copy, PartialEq, Eq, Structural, Debug)]
pub enum SizeUnit {
    Byte,
    Kilobyte,
    Megabyte,
    Gigabyte,
}

/// A byte count scaled to a display unit: `whole` integral units plus
/// `cents` hundredths of a unit (`cents` is always below 100).
#[derive(Clone, Copy, PartialEq, Eq, Structural, Debug)]
pub struct HumanSize {
    pub whole: u64,
    pub cents: u64,
    pub unit: SizeUnit,
}

/// The displayed value for `size` bytes at scale `divisor`, in hundredths of
/// a unit: `size / divisor` rounded half-up to two decimal places.
pub open spec fn scaled_cents(size: u64, divisor: u64) -> int
    recommends
        divisor >= 2,
{
    (size * 100 + divisor / 2) / (divisor as int)
}

/// The value a `HumanSize` displays, in hundredths of its unit.
pub open spec fn cents_of(h: HumanSize) -> int {
    h.whole * 100 + h.cents
}

/// Scale a byte count to the unit of its magnitude: bytes below `KILO`,
/// kibibytes below `MEGA`, mebibytes below `GIGA`, gibibytes up to (but not
/// including) `u64::MAX`, which itself falls back to plain bytes.
pub fn human_readable(size: u64) -> (h: HumanSize)
    ensures
        h.cents < 100,
        size < KILO ==> h.unit == SizeUnit::Byte && h.whole == size && h.cents == 0,
        KILO <= size < MEGA ==> h.unit == SizeUnit::Kilobyte && cents_of(h) == scaled_cents(
            size,
            KILO,
        ),
        MEGA <= size < GIGA ==> h.unit == SizeUnit::Megabyte && cents_of(h) == scaled_cents(
            size,
            MEGA,
        ),
        GIGA <= size < u64::MAX ==> h.unit == SizeUnit::Gigabyte && cents_of(h) == scaled_cents(
            size,
            GIGA,
        ),
        size == u64::MAX ==> h.unit == SizeUnit::Byte && h.whole == size && h.cents == 0,
{
    if size < KILO {
        HumanSize { whole: size, cents: 0, unit: SizeUnit::Byte }
    } else if size < MEGA {
        let num: u64 = size * 100 + KILO / 2;
        let q: u64 = num / KILO;
        HumanSize { whole: q / 100, cents: q % 100, unit: SizeUnit::Kilobyte }
    } else if size < GIGA {
        let num: u64 = size * 100 + MEGA / 2;
        let q: u64 = num / MEGA;
        HumanSize { whole: q / 100, cents: q % 100, unit: SizeUnit::Megabyte }
    } else if size < u64::MAX {
        let num: u128 = (size as u128) * 100 + ((GIGA / 2) as u128);
        let q128: u128 = num / (GIGA as u128);
        proof {
            assert(num < 0x800000000000000000u128);
            assert(q128 * (GIGA as u128) <= num);
        }
        let q: u64 = q128 as u64;
        HumanSize { whole: q / 100, cents: q % 100, unit: SizeUnit::Gigabyte }
    } else {
        HumanSize { whole: size, cents: 0, unit: SizeUnit::Byte }
    }
}

} // verus!
