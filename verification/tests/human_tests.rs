use dutop::human::{human_readable, SizeUnit, GIGA, KILO, MEGA};

#[test]
fn zero_bytes() {
    let h = human_readable(0);
    assert_eq!(h.unit, SizeUnit::Byte);
    assert_eq!(h.whole, 0);
    assert_eq!(h.cents, 0);
}

#[test]
fn bytes_below_kilo() {
    let h = human_readable(500);
    assert_eq!(h.unit, SizeUnit::Byte);
    assert_eq!(h.whole, 500);
    assert_eq!(h.cents, 0);
    let h = human_readable(KILO - 1);
    assert_eq!(h.unit, SizeUnit::Byte);
    assert_eq!(h.whole, 1023);
}

#[test]
fn exactly_one_kilo() {
    let h = human_readable(KILO);
    assert_eq!(h.unit, SizeUnit::Kilobyte);
    assert_eq!(h.whole, 1);
    assert_eq!(h.cents, 0);
}

#[test]
fn kilo_rounding_two_places() {
    let h = human_readable(1536);
    assert_eq!(h.unit, SizeUnit::Kilobyte);
    assert_eq!(h.whole, 1);
    assert_eq!(h.cents, 50);
    let h = human_readable(1546);
    assert_eq!(h.whole, 1);
    assert_eq!(h.cents, 51);
}

#[test]
fn mega_range() {
    let h = human_readable(5 * MEGA / 2);
    assert_eq!(h.unit, SizeUnit::Megabyte);
    assert_eq!(h.whole, 2);
    assert_eq!(h.cents, 50);
    let h = human_readable(GIGA - 1);
    assert_eq!(h.unit, SizeUnit::Megabyte);
    assert_eq!(h.whole, 1024);
    assert_eq!(h.cents, 0);
}

#[test]
fn giga_range() {
    let h = human_readable(GIGA);
    assert_eq!(h.unit, SizeUnit::Gigabyte);
    assert_eq!(h.whole, 1);
    assert_eq!(h.cents, 0);
    let h = human_readable(3 * GIGA + GIGA / 4);
    assert_eq!(h.unit, SizeUnit::Gigabyte);
    assert_eq!(h.whole, 3);
    assert_eq!(h.cents, 25);
}

#[test]
fn largest_value_falls_back_to_bytes() {
    let h = human_readable(u64::MAX);
    assert_eq!(h.unit, SizeUnit::Byte);
    assert_eq!(h.whole, u64::MAX);
    assert_eq!(h.cents, 0);
    let h = human_readable(u64::MAX - 1);
    assert_eq!(h.unit, SizeUnit::Gigabyte);
}
